use ios_calculator::Number;
use ios_calculator::NumericValue;

fn finite(neg: bool, mag: u128, scale: u32) -> NumericValue {
    NumericValue::Finite { neg, mag, scale }
}

#[test]
fn formats_large_exp_a() {
    let number = Number::from_value(finite(false, 1234567890, 0));
    assert_eq!(number.to_display_string(), "1.234567e9");
}

#[test]
fn formats_large_exp_b() {
    let number = Number::from_value(finite(false, 12345678900, 0));
    assert_eq!(number.to_display_string(), "1.23456e10");
}

#[test]
fn formats_large_neg_exp() {
    let number = Number::from_value(finite(true, 1234567890, 0));
    assert_eq!(number.to_display_string(), "-1.234567e9");
}

#[test]
fn formats_small_exp() {
    let number = Number::from_value(finite(false, 123456789, 17));
    assert_eq!(number.to_display_string(), "1.23456e-9");
}

#[test]
fn formats_small_neg_exp() {
    let number = Number::from_value(finite(true, 123456789, 17));
    assert_eq!(number.to_display_string(), "-1.23456e-9");
}

#[test]
fn append() {
    let mut number = Number::from_u8(1);
    number.append(2);
    assert_eq!(number.value(), finite(false, 12, 0), "Should append number.");
}

#[test]
fn append_decimal() {
    let mut number = Number::from_u8(1);
    number.decimalise();
    number.append(2);
    assert_eq!(number.value(), finite(false, 12, 1), "Should append number after decimal.");
}

#[test]
fn decimalise() {
    let mut number = Number::from_u8(1);
    number.decimalise();

    assert_eq!(number.value(), finite(false, 1, 0), "Should not effect numeric value.");
    assert_eq!(
        number.to_display_string(),
        "1.",
        "Should add decimal to end of number string."
    );
}

#[test]
fn formats_trailing_zeroes() {
    let mut number = Number::from_u8(1);
    number.decimalise();
    number.append(0);
    assert_eq!(number.to_display_string(), "1.0");
}

#[test]
fn formats_thousands() {
    let number = Number::from_value(finite(false, 123456, 2));
    assert_eq!(number.to_display_string(), "1,234.56");
}

#[test]
fn formats_millions() {
    let number = Number::from_value(finite(false, 123456789, 2));
    assert_eq!(number.to_display_string(), "1,234,567.89");
}

#[test]
fn concat_caps_at_nine_digits() {
    let mut number = Number::from_u8(1);
    for d in [2u8, 3, 4, 5, 6, 7, 8, 9, 1, 2, 3] {
        number.concat(d);
    }
    assert_eq!(number.value(), finite(false, 123456789, 0));
}

#[test]
fn concat_replaces_bare_zero() {
    let mut number = Number::zero();
    number.concat(0);
    number.concat(7);
    assert_eq!(number.value(), finite(false, 7, 0));
}

#[test]
fn decimalise_twice_is_once() {
    let mut number = Number::from_u8(2);
    number.decimalise();
    let once = number;
    number.decimalise();
    assert_eq!(number, once);
    assert_eq!(number.to_display_string(), "2.");
}

#[test]
fn negate_loses_pending_point() {
    let mut number = Number::from_u8(1);
    number.decimalise();
    number.negate();
    assert_eq!(number.value(), finite(true, 1, 0));
    assert_eq!(number.to_display_string(), "-1");
}

#[test]
fn set_value_strips_trailing_zeros() {
    let mut number = Number::zero();
    number.set_value(finite(false, 1500, 2));
    assert_eq!(number.value(), finite(false, 15, 0));
    assert_eq!(number.to_display_string(), "15");
}

#[test]
fn formats_nan_and_infinity() {
    let nan = Number::from_value(NumericValue::NotANumber);
    assert_eq!(nan.to_display_string(), "NaN");
    let inf = Number::from_value(NumericValue::Infinite { neg: false });
    assert_eq!(inf.to_display_string(), "inf");
    let ninf = Number::from_value(NumericValue::Infinite { neg: true });
    assert_eq!(ninf.to_display_string(), "-inf");
}
