pub mod candles;
pub mod clock;
pub mod decimal;
pub mod orderbook;
pub mod text;
pub mod matcher;
pub mod user;
pub mod oracle;
pub mod funding;
pub mod market;
pub mod liquidator;
pub mod engine;
pub mod app;
pub mod display;
