//! The mark price of a market and its slowly following index price.
use vstd::prelude::*;
use crate::decimal::{Dec, add_ok, dprod, dsum, mul_ok, dec_checked_add, dec_checked_mul};

verus! {

/// Mark price and index price of a market.
#[derive(Debug)]
pub struct Oracle {
    price: Dec,
    index_price: Dec,
}

/// The weight the index keeps of itself on each update (`0.999`).
pub open spec fn index_keep() -> Dec {
    Dec { mantissa: 999, scale: 3 }
}

/// The weight of the new price in the index on each update (`0.001`).
pub open spec fn index_take() -> Dec {
    Dec { mantissa: 1, scale: 3 }
}

/// The index after an update to `price`: `index * 0.999 + price * 0.001`.
pub open spec fn next_index(index: Dec, price: Dec) -> Dec {
    dsum(dprod(index, index_keep()), dprod(price, index_take()))
}

/// `next_index` does not overflow.
pub open spec fn next_index_ok(index: Dec, price: Dec) -> bool {
    &&& mul_ok(index, index_keep())
    &&& mul_ok(price, index_take())
    &&& add_ok(dprod(index, index_keep()), dprod(price, index_take()))
}

impl Oracle {
    /// The mark price.
    pub closed spec fn mark(self) -> Dec {
        self.price
    }

    /// The index price.
    pub closed spec fn index(self) -> Dec {
        self.index_price
    }

    /// Both prices are valid decimals.
    pub open spec fn wf(self) -> bool {
        self.mark().wf() && self.index().wf()
    }

    /// The oracle `new` makes.
    pub closed spec fn spec_new() -> Oracle {
        Oracle { price: Dec { mantissa: 50000, scale: 0 }, index_price: Dec { mantissa: 50000, scale: 0 } }
    }

    /// Both prices start at 50000.
    pub fn new() -> (r: Oracle)
        ensures
            r.wf(),
            r == Oracle::spec_new(),
            r.mark() == (Dec { mantissa: 50000, scale: 0 }),
            r.index() == (Dec { mantissa: 50000, scale: 0 }),
    {
        Oracle { price: Dec { mantissa: 50000, scale: 0 }, index_price: Dec { mantissa: 50000, scale: 0 } }
    }

    /// The mark price.
    pub fn price(&self) -> (r: Dec)
        ensures
            r == self.mark(),
    {
        self.price
    }

    /// The index price.
    pub fn index_price(&self) -> (r: Dec)
        ensures
            r == self.index(),
    {
        self.index_price
    }

    /// Sets the mark price; the index moves a thousandth of the way to it.
    pub fn set_price(&mut self, price: Dec)
        requires
            old(self).wf(),
            price.wf(),
            next_index_ok(old(self).index(), price),
        ensures
            final(self).wf(),
            final(self).mark() == price,
            final(self).index() == next_index(old(self).index(), price),
    {
        self.price = price;
        let keep = Dec { mantissa: 999, scale: 3 };
        let take = Dec { mantissa: 1, scale: 3 };
        self.index_price = self.index_price.times(keep).plus(price.times(take));
    }

    /// Whether `set_price(price)` can compute the new index without overflow.
    pub fn next_index_checks(&self, price: Dec) -> (r: bool)
        requires
            self.wf(),
            price.wf(),
        ensures
            r == next_index_ok(self.index(), price),
    {
        let keep = Dec { mantissa: 999, scale: 3 };
        let take = Dec { mantissa: 1, scale: 3 };
        let a = match dec_checked_mul(self.index_price, keep) {
            Some(x) => x,
            None => return false,
        };
        let b = match dec_checked_mul(price, take) {
            Some(x) => x,
            None => return false,
        };
        dec_checked_add(a, b).is_some()
    }

    /// `set_price` where the new index may overflow: returns whether it did
    /// not; the oracle is unchanged when it would have.
    pub fn try_set_price(&mut self, price: Dec) -> (r: bool)
        requires
            old(self).wf(),
            price.wf(),
        ensures
            final(self).wf(),
            r == next_index_ok(old(self).index(), price),
            r ==> final(self).mark() == price && final(self).index() == next_index(
                old(self).index(),
                price,
            ),
            !r ==> *final(self) == *old(self),
    {
        let keep = Dec { mantissa: 999, scale: 3 };
        let take = Dec { mantissa: 1, scale: 3 };
        let a = match dec_checked_mul(self.index_price, keep) {
            Some(x) => x,
            None => return false,
        };
        let b = match dec_checked_mul(price, take) {
            Some(x) => x,
            None => return false,
        };
        match dec_checked_add(a, b) {
            Some(x) => {
                self.price = price;
                self.index_price = x;
                true
            },
            None => false,
        }
    }
}

} // verus!
