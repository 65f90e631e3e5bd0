//! Exact decimal amounts (prices, sizes, balances).
//!
//! A `Dec` holds the two plain values that a `rust_decimal::Decimal` is made
//! of: a signed mantissa of at most 96 bits and a scale between 0 and 28, the
//! value being `mantissa / 10^scale`.  All arithmetic is done by
//! `rust_decimal` itself; the wrappers below state what its source shows.
use vstd::prelude::*;

verus! {

/// Largest magnitude of a mantissa: 2^96 - 1.
pub const MAX_MANTISSA: i128 = 0xFFFF_FFFF_FFFF_FFFF_FFFF_FFFF;

/// Largest number of decimal places.
pub const MAX_SCALE: u32 = 28;

/// A decimal number `mantissa / 10^scale`.
#[derive(Clone, Copy, Debug, PartialEq, Eq, Structural)]
pub struct Dec {
    pub mantissa: i128,
    pub scale: u32,
}

/// `10^n`.
pub open spec fn pow10(n: nat) -> int
    decreases n,
{
    if n == 0 {
        1
    } else {
        10 * pow10((n - 1) as nat)
    }
}

/// The largest value that a decimal can hold, measured in units of `10^-28`.
pub open spec fn dec_limit() -> int {
    MAX_MANTISSA * pow10(28)
}

/// `v` (in units of `10^-28`) can be written with `s` decimal places and a
/// mantissa of at most 96 bits.
pub open spec fn fits_at(v: int, s: nat) -> bool {
    s <= 28 && -(MAX_MANTISSA * pow10((28 - s) as nat)) <= v <= MAX_MANTISSA * pow10(
        (28 - s) as nat,
    )
}

pub open spec fn max_nat(a: nat, b: nat) -> nat {
    if a < b {
        b
    } else {
        a
    }
}

impl Dec {
    /// A valid decimal: scale at most 28, mantissa within 96 bits.
    pub open spec fn wf(self) -> bool {
        &&& self.scale <= MAX_SCALE
        &&& -MAX_MANTISSA <= self.mantissa <= MAX_MANTISSA
    }

    /// The value of the decimal, in units of `10^-28` (an exact integer).
    pub open spec fn val(self) -> int {
        self.mantissa * pow10((28 - self.scale) as nat)
    }

    /// The decimal `n` (scale 0), as `Decimal::from` builds it from an integer.
    pub fn from_u64(n: u64) -> (r: Dec)
        ensures
            r.wf(),
            r.scale == 0,
            r.mantissa == n,
            r.val() == n * pow10(28),
    {
        Dec { mantissa: n as i128, scale: 0 }
    }

    /// The decimal `n` (scale 0), as `Decimal::from` builds it from an integer.
    pub fn from_i64(n: i64) -> (r: Dec)
        ensures
            r.wf(),
            r.scale == 0,
            r.mantissa == n,
            r.val() == n * pow10(28),
    {
        Dec { mantissa: n as i128, scale: 0 }
    }

    /// Zero (`Decimal::ZERO`).
    pub fn zero() -> (r: Dec)
        ensures
            r.wf(),
            r.val() == 0,
            r.mantissa == 0 && r.scale == 0,
    {
        Dec { mantissa: 0, scale: 0 }
    }

    /// One (`Decimal::ONE`).
    pub fn one() -> (r: Dec)
        ensures
            r.wf(),
            r.val() == pow10(28),
            r.mantissa == 1 && r.scale == 0,
    {
        Dec { mantissa: 1, scale: 0 }
    }

    /// `value < other`, comparing values (so `1.0` and `1.00` are equal).
    pub fn lt(&self, other: &Dec) -> (r: bool)
        requires
            self.wf(),
            other.wf(),
        ensures
            r == (self.val() < other.val()),
    {
        dec_lt(*self, *other)
    }

    /// `value <= other`, comparing values.
    pub fn le(&self, other: &Dec) -> (r: bool)
        requires
            self.wf(),
            other.wf(),
        ensures
            r == (self.val() <= other.val()),
    {
        !dec_lt(*other, *self)
    }

    /// `value == other`, comparing values.
    pub fn same_value(&self, other: &Dec) -> (r: bool)
        requires
            self.wf(),
            other.wf(),
        ensures
            r == (self.val() == other.val()),
    {
        !dec_lt(*self, *other) && !dec_lt(*other, *self)
    }

    /// `self.min(other)` as `Ord::min` defines it: `other` when it is strictly
    /// smaller, `self` otherwise (so `self` on a tie).
    pub fn min(self, other: Dec) -> (r: Dec)
        requires
            self.wf(),
            other.wf(),
        ensures
            r == dec_min(self, other),
    {
        if dec_lt(other, self) {
            other
        } else {
            self
        }
    }

    /// `self > 0`.
    pub fn is_positive(&self) -> (r: bool)
        requires
            self.wf(),
        ensures
            r == (self.val() > 0),
    {
        dec_lt(Dec::zero(), *self)
    }
}

/// `a.min(b)`: `b` when it is strictly smaller, `a` otherwise.
pub open spec fn dec_min(a: Dec, b: Dec) -> Dec {
    if b.val() < a.val() {
        b
    } else {
        a
    }
}

/// What `Decimal::checked_add` returns for `a + b`: `None` on overflow.  When
/// the exact sum does not fit at the larger of the two scales the result is
/// rounded.  `a + b` gives the same decimal, and panics where this is `None`.
pub uninterp spec fn decimal_checked_add(a: Dec, b: Dec) -> Option<Dec>;

/// What `Decimal::checked_sub` returns for `a - b`: `None` on overflow.
/// `a - b` gives the same decimal, and panics where this is `None`.
pub uninterp spec fn decimal_checked_sub(a: Dec, b: Dec) -> Option<Dec>;

/// What `Decimal::checked_mul` returns for `a * b`: `None` on overflow.
/// `a * b` gives the same decimal, and panics where this is `None`.
pub uninterp spec fn decimal_checked_mul(a: Dec, b: Dec) -> Option<Dec>;

/// What `Decimal::checked_div` returns for `a / b`: `None` on overflow or a
/// zero divisor.  `a / b` gives the same decimal, and panics where this is
/// `None`.
pub uninterp spec fn decimal_checked_div(a: Dec, b: Dec) -> Option<Dec>;

/// `a + b` does not overflow.
pub open spec fn add_ok(a: Dec, b: Dec) -> bool {
    decimal_checked_add(a, b) is Some
}

/// `a - b` does not overflow.
pub open spec fn sub_ok(a: Dec, b: Dec) -> bool {
    decimal_checked_sub(a, b) is Some
}

/// `a * b` does not overflow.
pub open spec fn mul_ok(a: Dec, b: Dec) -> bool {
    decimal_checked_mul(a, b) is Some
}

/// `a / b` neither overflows nor divides by zero.
pub open spec fn div_ok(a: Dec, b: Dec) -> bool {
    decimal_checked_div(a, b) is Some
}

/// `a + b` as `Decimal` computes it.
pub open spec fn dsum(a: Dec, b: Dec) -> Dec {
    decimal_checked_add(a, b)->Some_0
}

/// `a - b` as `Decimal` computes it.
pub open spec fn ddiff(a: Dec, b: Dec) -> Dec {
    decimal_checked_sub(a, b)->Some_0
}

/// `a * b` as `Decimal` computes it.
pub open spec fn dprod(a: Dec, b: Dec) -> Dec {
    decimal_checked_mul(a, b)->Some_0
}

/// `a / b` as `Decimal` computes it.
pub open spec fn dquot(a: Dec, b: Dec) -> Dec {
    decimal_checked_div(a, b)->Some_0
}

/// `a.checked_add(b)` of `rust_decimal::Decimal`.
/// Claims: a result is a valid decimal; there is one whenever the exact sum
/// is at most `Decimal::MAX` in magnitude; it has exactly the value of the sum
/// when that sum can be written at the larger of the two scales within 96
/// bits (otherwise it is rounded, which is left unsaid).  With a zero
/// operand the other one comes back as it is, scale and all; two non-zero
/// operands of one scale whose mantissas add up within 96 bits give that
/// sum at that scale.
#[verifier::external_body]
pub(crate) fn dec_checked_add(a: Dec, b: Dec) -> (r: Option<Dec>)
    requires
        a.wf(),
        b.wf(),
    ensures
        r == decimal_checked_add(a, b),
        a.mantissa == 0 ==> r == Some(b),
        a.mantissa != 0 && b.mantissa == 0 ==> r == Some(a),
        a.mantissa != 0 && b.mantissa != 0 && a.scale == b.scale && -MAX_MANTISSA <= a.mantissa
            + b.mantissa <= MAX_MANTISSA ==> r is Some && r->Some_0.mantissa == a.mantissa + b.mantissa
            && r->Some_0.scale == a.scale,
        r matches Some(x) ==> x.wf(),
        -dec_limit() <= a.val() + b.val() <= dec_limit() ==> r is Some,
        r is Some && fits_at(a.val() + b.val(), max_nat(a.scale as nat, b.scale as nat)) ==> r->Some_0.val()
            == a.val() + b.val(),
{
    match rust_decimal::Decimal::from_i128_with_scale(a.mantissa, a.scale).checked_add(
        rust_decimal::Decimal::from_i128_with_scale(b.mantissa, b.scale),
    ) {
        Some(x) => Some(Dec { mantissa: x.mantissa(), scale: x.scale() }),
        None => None,
    }
}

/// `a.checked_sub(b)` of `rust_decimal::Decimal`.
/// Claims: a result is a valid decimal; there is one whenever the exact
/// difference is at most `Decimal::MAX` in magnitude; it has exactly the value
/// of the difference when that can be written at the larger of the two scales
/// within 96 bits (otherwise it is rounded, which is left unsaid).  Taking
/// zero away gives `a` back as it is; taking `b` from zero gives `-b` at
/// `b`'s scale; two non-zero operands of one scale whose mantissas differ
/// by at most 96 bits give that difference at that scale.
#[verifier::external_body]
pub(crate) fn dec_checked_sub(a: Dec, b: Dec) -> (r: Option<Dec>)
    requires
        a.wf(),
        b.wf(),
    ensures
        r == decimal_checked_sub(a, b),
        b.mantissa == 0 ==> r == Some(if a.mantissa == 0 { b } else { a }),
        a.mantissa == 0 && b.mantissa != 0 ==> r is Some && r->Some_0.mantissa == -b.mantissa
            && r->Some_0.scale == b.scale,
        a.mantissa != 0 && b.mantissa != 0 && a.scale == b.scale && -MAX_MANTISSA <= a.mantissa
            - b.mantissa <= MAX_MANTISSA ==> r is Some && r->Some_0.mantissa == a.mantissa - b.mantissa
            && r->Some_0.scale == a.scale,
        r matches Some(x) ==> x.wf(),
        -dec_limit() <= a.val() - b.val() <= dec_limit() ==> r is Some,
        r is Some && fits_at(a.val() - b.val(), max_nat(a.scale as nat, b.scale as nat)) ==> r->Some_0.val()
            == a.val() - b.val(),
{
    match rust_decimal::Decimal::from_i128_with_scale(a.mantissa, a.scale).checked_sub(
        rust_decimal::Decimal::from_i128_with_scale(b.mantissa, b.scale),
    ) {
        Some(x) => Some(Dec { mantissa: x.mantissa(), scale: x.scale() }),
        None => None,
    }
}

/// `a.checked_mul(b)` of `rust_decimal::Decimal`.
/// Claims: a result is a valid decimal, and there is one whenever the exact
/// product is at most `Decimal::MAX` in magnitude.  A zero operand gives
/// zero at scale 0; otherwise, where the product of the mantissas fits in 96
/// bits and the sum of the scales is at most 28, the result is exactly that
/// mantissa at that scale.  Its value in the other cases (the product
/// rounded to at most 28 places) is left unsaid.
#[verifier::external_body]
pub(crate) fn dec_checked_mul(a: Dec, b: Dec) -> (r: Option<Dec>)
    requires
        a.wf(),
        b.wf(),
    ensures
        r == decimal_checked_mul(a, b),
        a.mantissa == 0 || b.mantissa == 0 ==> r == Some(Dec { mantissa: 0, scale: 0 }),
        a.mantissa != 0 && b.mantissa != 0 && a.scale + b.scale <= 28 && -MAX_MANTISSA
            <= a.mantissa * b.mantissa <= MAX_MANTISSA ==> r is Some && r->Some_0.mantissa
            == a.mantissa * b.mantissa && r->Some_0.scale == a.scale + b.scale,
        r matches Some(x) ==> x.wf(),
        -dec_limit() * pow10(28) <= a.val() * b.val() <= dec_limit() * pow10(28) ==> r is Some,
{
    match rust_decimal::Decimal::from_i128_with_scale(a.mantissa, a.scale).checked_mul(
        rust_decimal::Decimal::from_i128_with_scale(b.mantissa, b.scale),
    ) {
        Some(x) => Some(Dec { mantissa: x.mantissa(), scale: x.scale() }),
        None => None,
    }
}

/// `a.checked_div(b)` of `rust_decimal::Decimal`.
/// Claims: a result is a valid decimal; there is none for a zero divisor.
/// A zero dividend over a non-zero divisor gives zero at scale 0.  Where the
/// divisor's mantissa is below 2^32 in magnitude and divides the dividend's,
/// and the divisor's scale is at most the dividend's, the quotient is exact:
/// that mantissa quotient at the difference of the scales.  The rounded
/// quotient in the other cases, and exactly when it overflows, are left
/// unsaid.
#[verifier::external_body]
pub(crate) fn dec_checked_div(a: Dec, b: Dec) -> (r: Option<Dec>)
    requires
        a.wf(),
        b.wf(),
    ensures
        r == decimal_checked_div(a, b),
        r matches Some(x) ==> x.wf(),
        b.val() == 0 ==> r is None,
        a.mantissa == 0 && b.mantissa != 0 ==> r == Some(Dec { mantissa: 0, scale: 0 }),
        a.mantissa != 0 && b.mantissa != 0 && -0xFFFF_FFFFi128 <= b.mantissa <= 0xFFFF_FFFFi128
            && b.scale <= a.scale && a.mantissa % b.mantissa == 0 ==> r is Some && r->Some_0.scale
            == a.scale - b.scale && r->Some_0.mantissa * b.mantissa == a.mantissa,
{
    match rust_decimal::Decimal::from_i128_with_scale(a.mantissa, a.scale).checked_div(
        rust_decimal::Decimal::from_i128_with_scale(b.mantissa, b.scale),
    ) {
        Some(x) => Some(Dec { mantissa: x.mantissa(), scale: x.scale() }),
        None => None,
    }
}

impl Dec {
    /// `self + other`, or `None` where it overflows (`Decimal::checked_add`).
    pub fn checked_add(self, other: Dec) -> (r: Option<Dec>)
        requires
            self.wf(),
            other.wf(),
        ensures
            r == decimal_checked_add(self, other),
            r is Some <==> add_ok(self, other),
            r matches Some(x) ==> x == dsum(self, other) && x.wf(),
            -dec_limit() <= self.val() + other.val() <= dec_limit() ==> r is Some,
            r is Some && fits_at(self.val() + other.val(), max_nat(self.scale as nat, other.scale as nat))
                ==> r->Some_0.val() == self.val() + other.val(),
            self.mantissa == 0 ==> r == Some(other),
            self.mantissa != 0 && other.mantissa == 0 ==> r == Some(self),
            self.mantissa != 0 && other.mantissa != 0 && self.scale == other.scale && -MAX_MANTISSA
                <= self.mantissa + other.mantissa <= MAX_MANTISSA ==> r is Some && r->Some_0.mantissa
                == self.mantissa + other.mantissa && r->Some_0.scale == self.scale,
    {
        dec_checked_add(self, other)
    }

    /// `self - other`, or `None` where it overflows (`Decimal::checked_sub`).
    pub fn checked_sub(self, other: Dec) -> (r: Option<Dec>)
        requires
            self.wf(),
            other.wf(),
        ensures
            r == decimal_checked_sub(self, other),
            r is Some <==> sub_ok(self, other),
            r matches Some(x) ==> x == ddiff(self, other) && x.wf(),
            -dec_limit() <= self.val() - other.val() <= dec_limit() ==> r is Some,
            r is Some && fits_at(self.val() - other.val(), max_nat(self.scale as nat, other.scale as nat))
                ==> r->Some_0.val() == self.val() - other.val(),
            other.mantissa == 0 ==> r == Some(if self.mantissa == 0 { other } else { self }),
            self.mantissa == 0 && other.mantissa != 0 ==> r is Some && r->Some_0.mantissa
                == -other.mantissa && r->Some_0.scale == other.scale,
            self.mantissa != 0 && other.mantissa != 0 && self.scale == other.scale && -MAX_MANTISSA
                <= self.mantissa - other.mantissa <= MAX_MANTISSA ==> r is Some && r->Some_0.mantissa
                == self.mantissa - other.mantissa && r->Some_0.scale == self.scale,
    {
        dec_checked_sub(self, other)
    }

    /// `self * other`, or `None` where it overflows (`Decimal::checked_mul`).
    pub fn checked_mul(self, other: Dec) -> (r: Option<Dec>)
        requires
            self.wf(),
            other.wf(),
        ensures
            r == decimal_checked_mul(self, other),
            r is Some <==> mul_ok(self, other),
            r matches Some(x) ==> x == dprod(self, other) && x.wf(),
            -dec_limit() * pow10(28) <= self.val() * other.val() <= dec_limit() * pow10(28) ==> r is Some,
            self.mantissa == 0 || other.mantissa == 0 ==> r == Some(Dec { mantissa: 0, scale: 0 }),
            self.mantissa != 0 && other.mantissa != 0 && self.scale + other.scale <= 28 && -MAX_MANTISSA
                <= self.mantissa * other.mantissa <= MAX_MANTISSA ==> r is Some && r->Some_0.mantissa
                == self.mantissa * other.mantissa && r->Some_0.scale == self.scale + other.scale,
    {
        dec_checked_mul(self, other)
    }

    /// `self / other`, or `None` where it overflows or `other` is zero
    /// (`Decimal::checked_div`).
    pub fn checked_div(self, other: Dec) -> (r: Option<Dec>)
        requires
            self.wf(),
            other.wf(),
        ensures
            r == decimal_checked_div(self, other),
            r is Some <==> div_ok(self, other),
            r matches Some(x) ==> x == dquot(self, other) && x.wf(),
            other.val() == 0 ==> r is None,
            self.mantissa == 0 && other.mantissa != 0 ==> r == Some(Dec { mantissa: 0, scale: 0 }),
            self.mantissa != 0 && other.mantissa != 0 && -0xFFFF_FFFFi128 <= other.mantissa
                <= 0xFFFF_FFFFi128 && other.scale <= self.scale && self.mantissa % other.mantissa == 0
                ==> r is Some && r->Some_0.scale == self.scale - other.scale && r->Some_0.mantissa
                * other.mantissa == self.mantissa,
    {
        dec_checked_div(self, other)
    }

    /// `self + other`, as `Decimal`'s `+`.
    pub fn plus(self, other: Dec) -> (r: Dec)
        requires
            self.wf(),
            other.wf(),
            add_ok(self, other),
        ensures
            r == dsum(self, other),
            r.wf(),
    {
        match dec_checked_add(self, other) {
            Some(x) => x,
            None => self,
        }
    }

    /// `self - other`, as `Decimal`'s `-`.
    pub fn minus(self, other: Dec) -> (r: Dec)
        requires
            self.wf(),
            other.wf(),
            sub_ok(self, other),
        ensures
            r == ddiff(self, other),
            r.wf(),
    {
        match dec_checked_sub(self, other) {
            Some(x) => x,
            None => self,
        }
    }

    /// `self * other`, as `Decimal`'s `*`.
    pub fn times(self, other: Dec) -> (r: Dec)
        requires
            self.wf(),
            other.wf(),
            mul_ok(self, other),
        ensures
            r == dprod(self, other),
            r.wf(),
    {
        match dec_checked_mul(self, other) {
            Some(x) => x,
            None => self,
        }
    }

    /// `self / other`, as `Decimal`'s `/`.
    pub fn divided_by(self, other: Dec) -> (r: Dec)
        requires
            self.wf(),
            other.wf(),
            div_ok(self, other),
        ensures
            r == dquot(self, other),
            r.wf(),
    {
        match dec_checked_div(self, other) {
            Some(x) => x,
            None => self,
        }
    }
}

/// `a < b` by `rust_decimal::Decimal`'s `PartialOrd`, which compares values.
#[verifier::external_body]
pub(crate) fn dec_lt(a: Dec, b: Dec) -> (r: bool)
    requires
        a.wf(),
        b.wf(),
    ensures
        r == (a.val() < b.val()),
{
    rust_decimal::Decimal::from_i128_with_scale(a.mantissa, a.scale)
        < rust_decimal::Decimal::from_i128_with_scale(b.mantissa, b.scale)
}

/// What `Decimal::from_str` returns for the text `s` (`None` on an error).
pub uninterp spec fn decimal_parse(s: Seq<char>) -> Option<Dec>;

/// The text that `Decimal`'s `Display` writes for `d`.
pub uninterp spec fn decimal_text(d: Dec) -> Seq<char>;

/// The text that `Decimal`'s `Display` writes for `d` with precision 4
/// (`{:.4}`).
pub uninterp spec fn decimal_text_4dp(d: Dec) -> Seq<char>;

/// Parses `s` with `Decimal::from_str`.
/// Claims: the result is named by `decimal_parse`, and is a valid decimal.
#[verifier::external_body]
pub(crate) fn dec_parse(s: &str) -> (r: Option<Dec>)
    ensures
        r == decimal_parse(s@),
        r matches Some(d) ==> d.wf(),
{
    match <rust_decimal::Decimal as std::str::FromStr>::from_str(s) {
        Ok(x) => Some(Dec { mantissa: x.mantissa(), scale: x.scale() }),
        Err(_) => None,
    }
}

/// `d` written by `Decimal`'s `Display`.
#[verifier::external_body]
pub(crate) fn dec_text(d: Dec) -> (r: String)
    requires
        d.wf(),
    ensures
        r@ == decimal_text(d),
{
    rust_decimal::Decimal::from_i128_with_scale(d.mantissa, d.scale).to_string()
}

/// `d` written by `Decimal`'s `Display` with four decimal places (`{:.4}`).
#[verifier::external_body]
pub(crate) fn dec_text_4dp(d: Dec) -> (r: String)
    requires
        d.wf(),
    ensures
        r@ == decimal_text_4dp(d),
{
    format!("{:.4}", rust_decimal::Decimal::from_i128_with_scale(d.mantissa, d.scale))
}

/// `10^n` is positive.
pub proof fn lemma_pow10_pos(n: nat)
    ensures
        pow10(n) > 0,
    decreases n,
{
    if n > 0 {
        lemma_pow10_pos((n - 1) as nat);
    }
}

/// Zero fits at every scale.
pub proof fn lemma_zero_fits(s: nat)
    requires
        s <= 28,
    ensures
        fits_at(0, s),
{
    lemma_pow10_pos((28 - s) as nat);
}

/// `x - x` is exactly zero.
pub proof fn lemma_sub_self(x: Dec)
    requires
        x.wf(),
    ensures
        fits_at(x.val() - x.val(), x.scale as nat),
        -dec_limit() < x.val() - x.val() < dec_limit(),
{
    lemma_zero_fits(x.scale as nat);
    lemma_pow10_pos(28);
}

} // verus!
