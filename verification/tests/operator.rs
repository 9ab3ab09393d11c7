use ios_calculator::NumericValue;
use ios_calculator::Operator;
use ios_calculator::UnknownOperatorError;

#[test]
fn after_true() {
    let add = Operator::add();
    let multiply = Operator::multiply();

    assert!(add.after(&multiply), "Addition comes after multiplication.");
}

#[test]
fn after_false() {
    let add = Operator::add();
    let multiply = Operator::multiply();

    assert!(!multiply.after(&add), "Multiplication does not come after addition.");
}

#[test]
fn before_matches_after() {
    let subtract = Operator::subtract();
    let divide = Operator::divide();
    assert!(subtract.before(&divide));
    assert!(!divide.before(&subtract));
}

#[test]
fn parses_symbols() {
    assert_eq!(Operator::from_symbol("+"), Ok(Operator::Add));
    assert_eq!(Operator::from_symbol("-"), Ok(Operator::Subtract));
    assert_eq!(Operator::from_symbol("*"), Ok(Operator::Multiply));
    assert_eq!(Operator::from_symbol("/"), Ok(Operator::Divide));
}

#[test]
fn rejects_unknown_symbols() {
    assert_eq!(Operator::from_symbol("x"), Err(UnknownOperatorError));
    assert_eq!(Operator::from_symbol(""), Err(UnknownOperatorError));
    assert_eq!(Operator::from_symbol("++"), Err(UnknownOperatorError));
}

#[test]
fn operator_ids() {
    assert_eq!(Operator::add().id(), '+');
    assert_eq!(Operator::subtract().id(), '-');
    assert_eq!(Operator::multiply().id(), '*');
    assert_eq!(Operator::divide().id(), '/');
}

fn whole(v: i64) -> NumericValue {
    if v < 0 {
        NumericValue::Finite { neg: true, mag: (-v) as u128, scale: 0 }
    } else {
        NumericValue::Finite { neg: false, mag: v as u128, scale: 0 }
    }
}

#[test]
fn applies_arithmetic() {
    assert_eq!(Operator::add().apply(whole(2), whole(3)), whole(5));
    assert_eq!(Operator::subtract().apply(whole(2), whole(3)), whole(-1));
    assert_eq!(Operator::multiply().apply(whole(4), whole(3)), whole(12));
    assert_eq!(Operator::divide().apply(whole(6), whole(3)), whole(2));
}

#[test]
fn divide_by_zero_is_infinite() {
    assert_eq!(Operator::divide().apply(whole(1), whole(0)), NumericValue::Infinite { neg: false });
    assert_eq!(Operator::divide().apply(whole(-1), whole(0)), NumericValue::Infinite { neg: true });
    assert_eq!(Operator::divide().apply(whole(0), whole(0)), NumericValue::NotANumber);
}

#[test]
fn divide_truncates_at_full_precision() {
    // 1 / 3 is 0. followed by 36 threes: truncated, never rounded.
    let r = Operator::divide().apply(whole(1), whole(3));
    assert_eq!(
        r,
        NumericValue::Finite {
            neg: false,
            mag: 333_333_333_333_333_333_333_333_333_333_333_333,
            scale: 36,
        }
    );
}
