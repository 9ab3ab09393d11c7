use ios_calculator::Truncate;

#[test]
fn truncate_nums() {
    let test_str = String::from("1.234");
    assert_eq!(test_str.truncate_nums(2), "1.2");
}

#[test]
fn truncate_nums_over_len() {
    let test_str = String::from("1.234");
    assert_eq!(test_str.truncate_nums(6), "1.234");
}

#[test]
fn truncate_truncate_nums() {
    let test_str = String::from("1234");
    assert_eq!(
        test_str.truncate_nums(2),
        "12",
        "Should reduce the number of numeric characters to the given count."
    );
}

#[test]
fn truncate_nums_decimal() {
    let test_str = String::from("1.234");
    assert_eq!(
        test_str.truncate_nums(2),
        "1.2",
        "Should reduce the number of numeric characters to the given count."
    );
}

#[test]
fn truncate_truncate_nums_over_len() {
    let test_str = String::from("1234");
    assert_eq!(test_str.truncate_nums(6), "1234", "Should have no effect when the max count is greater than the number of numeric characters.");
}

#[test]
fn truncate_keeps_separators() {
    let test_str = String::from("1,234,567.89");
    assert_eq!(test_str.truncate_nums(9), "1,234,567.89");
    assert_eq!(test_str.truncate_nums(7), "1,234,567");
}

#[test]
fn truncate_empty() {
    let test_str = String::new();
    assert_eq!(test_str.truncate_nums(3), "");
}
