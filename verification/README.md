# terminal_perps

A simulated perpetual-futures exchange for the terminal: order books with
price-time priority matching, margin accounts with leveraged positions,
funding payments, liquidation, candle charts, and the key-driven
application state around them.

`src/` is the library, verified with Verus:

- `decimal`: the decimal amounts (`Dec`), with the arithmetic of
  `rust_decimal` behind small trusted wrappers;
- `orderbook`, `matcher`: the book (price levels in ascending order, orders
  oldest first) and the matching of incoming orders;
- `user`: accounts, positions, profit and liquidation prices;
- `oracle`, `funding`, `liquidator`, `candles`, `market`, `engine`: prices,
  funding, liquidation passes, charts, one market, and the exchange;
- `app`: the application state and what each key and tick does to it;
- `display`: the numbers the screens show (grouped candles, the chart's
  price range, the depth ladder, the account's totals);
- `clock`, `text`: the clock and the few string operations used.

`app/` is the terminal front end (terminal I/O, events, saving, the random
market simulators and drawing), and `tests/` runs the library on concrete
cases.
