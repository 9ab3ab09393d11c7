use ios_calculator::Calculator;
use ios_calculator::Number;
use ios_calculator::NumericValue;
use ios_calculator::Operator;
use ios_calculator::Token;

fn test_calculator(buffer: Vec<Token>) -> Calculator {
    Calculator::from_parts(buffer, 0, true, false)
}

fn number(neg: bool, mag: u128, scale: u32) -> Number {
    Number::from_value(NumericValue::Finite { neg, mag, scale })
}

#[test]
fn last_operator_some() {
    let subtract = Operator::subtract();
    let add = Operator::add();
    let calc = test_calculator(vec![
        Token::Operator(subtract.clone()),
        Token::Operator(add.clone()),
    ]);

    assert_eq!(
        calc.last_operator(),
        Some(add),
        "Should return some last operator in the buffer."
    );
}

#[test]
fn last_operator_none() {
    let number_1 = number(false, 1, 0);
    let calc = test_calculator(vec![Token::Number(number_1.clone())]);

    assert_eq!(
        calc.last_operator(),
        None,
        "Should return none when no operator in the buffer."
    );
}

#[test]
fn last_operator_empty() {
    let calc = test_calculator(vec![]);

    assert_eq!(
        calc.last_operator(),
        None,
        "Should return none when buffer is empty."
    );
}

#[test]
fn submit_percentage() {
    let number_1 = number(false, 1, 0);
    let mut calc = test_calculator(vec![Token::Number(number_1.clone())]);
    calc.submit_percentage();

    assert_eq!(
        calc.output(),
        number(false, 1, 2),
        "Should convert output to a percentage."
    );
}

#[test]
fn submit_percentage_negative() {
    let number_1 = number(true, 1, 0);
    let mut calc = test_calculator(vec![Token::Number(number_1.clone())]);
    calc.submit_percentage();

    assert_eq!(
        calc.output(),
        number(true, 1, 2),
        "Should convert output to a percentage."
    );
}
