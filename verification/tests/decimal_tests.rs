use rust_decimal::Decimal;
use std::str::FromStr;
use terminal_perps::decimal::{Dec, MAX_MANTISSA};

fn d(s: &str) -> Dec {
    let x = Decimal::from_str(s).unwrap();
    Dec { mantissa: x.mantissa(), scale: x.scale() }
}

fn v(x: Dec) -> Decimal {
    Decimal::from_i128_with_scale(x.mantissa, x.scale)
}

#[test]
fn checked_add_and_sub_give_exact_values() {
    let s = d("1000").checked_add(d("20.5")).unwrap();
    assert_eq!(v(s), Decimal::from_str("1020.5").unwrap());
    assert_eq!(s.scale, 1);
    let r = d("1020").checked_sub(d("0.75")).unwrap();
    assert_eq!(v(r), Decimal::from_str("1019.25").unwrap());
    assert_eq!(d("0").checked_add(d("1.50")).unwrap(), d("1.50"));
    let neg = d("0").checked_sub(d("2.5")).unwrap();
    assert_eq!(neg, Dec { mantissa: -25, scale: 1 });
}

#[test]
fn checked_mul_keeps_the_exact_product() {
    let p = d("50500").checked_mul(d("0.1")).unwrap();
    assert_eq!(p, Dec { mantissa: 50500, scale: 1 });
    assert_eq!(d("0.00").checked_mul(d("7")).unwrap(), Dec { mantissa: 0, scale: 0 });
}

#[test]
fn checked_div_divides_exactly_where_it_can() {
    let q = Dec::from_u64(100).checked_div(Dec::from_u64(2)).unwrap();
    assert_eq!(v(q), Decimal::from(50));
    let margin = d("5050.0").checked_div(Dec::from_u64(100)).unwrap();
    assert_eq!(margin, Dec { mantissa: 505, scale: 1 });
    assert_eq!(v(Dec::from_u64(1).checked_div(Dec::from_u64(4)).unwrap()), Decimal::from_str("0.25").unwrap());
}

#[test]
fn checked_operations_refuse_overflow_and_zero_divisors() {
    let max = Dec { mantissa: MAX_MANTISSA, scale: 0 };
    assert!(max.checked_add(Dec::one()).is_none());
    assert!(Dec { mantissa: -MAX_MANTISSA, scale: 0 }.checked_sub(Dec::one()).is_none());
    assert!(max.checked_mul(Dec::from_u64(2)).is_none());
    assert!(Dec::one().checked_div(Dec::zero()).is_none());
    assert!(Dec::one().checked_div(d("0.000")).is_none());
    assert!(max.checked_div(d("0.1")).is_none());
}
