use tugboat::text::{chars_of, push_decimal, Numeral};

fn decimal(n: u64) -> String {
    let mut out = String::new();
    push_decimal(&mut out, n);
    out
}

#[test]
fn chars_of_keeps_order() {
    assert_eq!(chars_of("aé\n1"), vec!['a', 'é', '\n', '1']);
    assert_eq!(chars_of(""), Vec::<char>::new());
}

fn written(n: &Numeral) -> String {
    let mut out = String::new();
    n.write(&mut out);
    out
}

#[test]
fn numeral_starts_at_zero() {
    assert_eq!(written(&Numeral::zero()), "0");
}

#[test]
fn numeral_counts_like_decimal() {
    let mut n = Numeral::zero();
    for expected in 1..=1200u32 {
        n.increment();
        assert_eq!(written(&n), expected.to_string());
    }
}

#[test]
fn numeral_is_appended() {
    let mut n = Numeral::zero();
    n.increment();
    let mut out = String::from(".endWhile_");
    n.write(&mut out);
    assert_eq!(out, ".endWhile_1");
}

#[test]
fn numeral_clone_is_apart() {
    let mut n = Numeral::zero();
    for _ in 0..99 {
        n.increment();
    }
    let copy = n.clone();
    n.increment();
    assert_eq!(written(&copy), "99");
    assert_eq!(written(&n), "100");
}

#[test]
fn decimal_numerals() {
    assert_eq!(decimal(0), "0");
    assert_eq!(decimal(7), "7");
    assert_eq!(decimal(10), "10");
    assert_eq!(decimal(255), "255");
    assert_eq!(decimal(1000), "1000");
    assert_eq!(decimal(u64::MAX), "18446744073709551615");
}

#[test]
fn decimal_is_appended() {
    let mut out = String::from("ds ");
    push_decimal(&mut out, 42);
    assert_eq!(out, "ds 42");
}
