use tiling_solver::text::{least_text, push_decimal, push_padded};

fn decimal(n: usize) -> String {
    let mut text = String::new();
    push_decimal(&mut text, n);
    text
}

fn padded(n: usize) -> String {
    let mut text = String::new();
    push_padded(&mut text, n);
    text
}

#[test]
fn decimal_digits_without_leading_zeros() {
    assert_eq!(decimal(0), "0");
    assert_eq!(decimal(7), "7");
    assert_eq!(decimal(10), "10");
    assert_eq!(decimal(1234567890), "1234567890");
    assert_eq!(decimal(usize::MAX), usize::MAX.to_string());
}

#[test]
fn decimal_is_appended_to_what_is_there() {
    let mut text = String::from("id ");
    push_decimal(&mut text, 42);
    push_decimal(&mut text, 0);
    assert_eq!(text, "id 420");
}

#[test]
fn padded_is_two_digits_wide_at_least() {
    assert_eq!(padded(0), "00");
    assert_eq!(padded(9), "09");
    assert_eq!(padded(10), "10");
    assert_eq!(padded(99), "99");
    assert_eq!(padded(100), "100");
    assert_eq!(padded(4096), "4096");
}

#[test]
fn least_text_is_the_first_in_lexicographic_order() {
    let texts = vec!["0203".to_string(), "0201".to_string(), "02".to_string(), "1".to_string()];
    assert_eq!(least_text(&texts), "02");
    let texts = vec!["b".to_string(), "ab".to_string(), "aa".to_string(), "aaa".to_string()];
    assert_eq!(least_text(&texts), "aa");
    let texts = vec!["100".to_string(), "09".to_string()];
    assert_eq!(least_text(&texts), "09");
    let texts = vec!["only".to_string()];
    assert_eq!(least_text(&texts), "only");
}
