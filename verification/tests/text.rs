use compiler::text::push_decimal;

fn decimal(n: u64) -> String {
    let mut text = String::new();
    push_decimal(&mut text, n);
    text
}

#[test]
fn numbers_are_written_without_leading_zeros() {
    assert_eq!(decimal(0), "0");
    assert_eq!(decimal(7), "7");
    assert_eq!(decimal(10), "10");
    assert_eq!(decimal(1009), "1009");
    assert_eq!(decimal(u64::MAX), "18446744073709551615");
}

#[test]
fn numbers_go_to_the_end_of_the_text() {
    let mut text = String::from("voice");
    push_decimal(&mut text, 42);
    push_decimal(&mut text, 0);
    assert_eq!(text, "voice420");
}
