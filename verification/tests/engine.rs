use ios_calculator::Calculator;
use ios_calculator::Operator;

fn press(calc: &mut Calculator, id: &str) {
    if id.len() == 1 {
        if let Ok(n) = id.parse::<u8>() {
            calc.submit_number(n);
            return;
        }
    }
    match id {
        "." => calc.submit_decimal(),
        "=" => calc.submit_equals(),
        "c" => calc.clear(),
        "±" => calc.submit_negative(),
        "%" => calc.submit_percentage(),
        _ => {
            if let Ok(op) = Operator::from_symbol(id) {
                calc.submit_operator(op);
            } else {
                panic!("unknown button: {}", id);
            }
        }
    }
}

fn run(ids: &[&str]) -> String {
    let mut calc = Calculator::new();
    for id in ids {
        press(&mut calc, id);
    }
    calc.output().to_display_string()
}

#[test]
fn initial_result() {
    assert_eq!(run(&[]), "0");
}

#[test]
fn shows_ac() {
    let mut calc = Calculator::new();
    assert!(calc.cleared());
    press(&mut calc, "3");
    press(&mut calc, "+");
    press(&mut calc, "c");
    assert!(calc.cleared());
}

#[test]
fn shows_c() {
    let mut calc = Calculator::new();
    press(&mut calc, "3");
    assert!(!calc.cleared());
}

#[test]
fn active_operator_highlight() {
    let mut calc = Calculator::new();
    press(&mut calc, "+");
    assert_eq!(calc.active_operator().map(|op| op.id()), Some('+'));
}

#[test]
fn sign_function() {
    assert_eq!(run(&["1", "±"]), "-1");
}

#[test]
fn sign_function_initial() {
    assert_eq!(run(&["±", "1"]), "-1");
}

#[test]
fn percentage_function() {
    assert_eq!(run(&["1", "%"]), "0.01");
}

#[test]
fn outputs_last_number_input_a() {
    assert_eq!(run(&["1", "+", "2"]), "2");
}

#[test]
fn outputs_last_number_input_b() {
    assert_eq!(run(&["1", "+", "2", "=", "3"]), "3");
}

#[test]
fn add() {
    assert_eq!(run(&["1", "+", "2", "="]), "3");
}

#[test]
fn add_negative() {
    assert_eq!(run(&["1", "+", "2", "±", "="]), "-1");
}

#[test]
fn substract() {
    assert_eq!(run(&["3", "-", "2", "="]), "1");
}

#[test]
fn divide() {
    assert_eq!(run(&["2", "/", "2", "="]), "1");
}

#[test]
fn multiply() {
    assert_eq!(run(&["2", "*", "2", "="]), "4");
}

#[test]
fn multiply_two_goes() {
    assert_eq!(run(&["2", "*", "2", "=", "1", "*", "3", "="]), "3");
}

#[test]
fn clear() {
    assert_eq!(run(&["3", "c"]), "0");
}

#[test]
fn memory() {
    assert_eq!(run(&["2", "*", "2", "=", "="]), "8");
}

#[test]
fn memory_three_times() {
    assert_eq!(run(&["2", "*", "2", "=", "=", "="]), "16");
}

#[test]
fn memory_after_clear() {
    assert_eq!(run(&["2", "*", "2", "=", "c", "3", "="]), "6");
}

#[test]
fn shallow_clear_keeps_pending_operator() {
    // A shallow clear blanks only the displayed entry; the pending operator
    // stays, so the next digit becomes its right operand.
    assert_eq!(run(&["3", "+", "c", "3", "="]), "3");
}

#[test]
fn decimalise_display() {
    assert_eq!(run(&["1", "."]), "1.");
}

#[test]
fn no_double_decimal() {
    assert_eq!(run(&["1", ".", "."]), "1.");
}

#[test]
fn decimal_submits_zero() {
    assert_eq!(run(&["1", "+", "."]), "0.");
}

#[test]
fn decimal_addition() {
    assert_eq!(run(&["1", ".", "5", "+", "2", ".", "7", "="]), "4.2");
}

#[test]
fn formats_thousands_entry() {
    assert_eq!(run(&["1", "0", "0", "0"]), "1,000");
}

#[test]
fn formats_millions_entry() {
    assert_eq!(run(&["1", "0", "0", "0", "0", "0", "0"]), "1,000,000");
}

#[test]
fn negative_zero() {
    assert_eq!(run(&["±"]), "-0");
}

#[test]
fn negative_zero_decimal() {
    assert_eq!(run(&["1", "%", "±"]), "-0.01");
}

#[test]
fn entry_stops_at_nine_digits() {
    assert_eq!(
        run(&["1", "2", "3", "4", "5", "6", "7", "8", "9", "0"]),
        "123,456,789"
    );
}

#[test]
fn big_number_exponential() {
    assert_eq!(
        run(&["9", "9", "9", "9", "9", "9", "9", "9", "9", "+", "1", "="]),
        "1e9"
    );
}

#[test]
fn big_number_exponential_truncation_a() {
    assert_eq!(
        run(&["1", "2", "3", "4", "5", "6", "7", "8", "9", "*", "1", "0", "="]),
        "1.234567e9"
    );
}

#[test]
fn big_number_exponential_truncation_b() {
    assert_eq!(
        run(&["1", "2", "3", "4", "5", "6", "7", "8", "9", "*", "1", "0", "0", "="]),
        "1.23456e10"
    );
}

#[test]
fn calculate_on_new_operator() {
    assert_eq!(run(&["1", "+", "2", "+"]), "3");
}

#[test]
fn order_of_ops_new_operator() {
    let mut calc = Calculator::new();
    assert!(calc.cleared());
    press(&mut calc, "1");
    press(&mut calc, "+");
    press(&mut calc, "2");
    press(&mut calc, "*");
    assert_eq!(calc.output().to_display_string(), "2");
    assert_eq!(calc.active_operator().map(|op| op.id()), Some('*'));
}

#[test]
fn order_of_ops_calculation() {
    assert_eq!(run(&["1", "+", "2", "*", "3", "="]), "7");
}

#[test]
fn negative_second_operand_only() {
    // The sign toggle before equals touches only the displayed operand.
    let mut calc = Calculator::new();
    press(&mut calc, "1");
    press(&mut calc, "+");
    press(&mut calc, "2");
    press(&mut calc, "±");
    assert_eq!(calc.output().to_display_string(), "-2");
    press(&mut calc, "=");
    assert_eq!(calc.output().to_display_string(), "-1");
}

#[test]
fn divide_by_zero_shows_infinity() {
    assert_eq!(run(&["1", "/", "0", "="]), "inf");
    assert_eq!(run(&["1", "±", "/", "0", "="]), "-inf");
}

#[test]
fn zero_over_zero_is_nan() {
    assert_eq!(run(&["0", "/", "0", "="]), "NaN");
}

#[test]
fn switches_pending_operator() {
    assert_eq!(run(&["6", "+", "/", "2", "="]), "3");
}
