use contest_solvers::bigint::BigInt;

fn big(s: &str) -> BigInt {
    BigInt::parse(s).unwrap()
}

#[test]
fn parse_and_print_round_trip() {
    let text = "123456789012345678901234567890";
    assert_eq!(big(text).to_string(), text);
}

#[test]
fn parse_skips_leading_zeros() {
    assert_eq!(big("000123").to_string(), "123");
}

#[test]
fn parse_zero() {
    assert_eq!(big("0").to_string(), "0");
}

#[test]
fn parse_refuses_non_digits() {
    assert!(BigInt::parse("12a").is_err());
}

#[test]
fn add_carries_into_a_new_word() {
    let mut a = big("18446744073709551615");
    a.add(big("1"));
    assert_eq!(a.to_string(), "18446744073709551616");
}

#[test]
fn add_decimal_carry() {
    let mut a = big("99999999999999999999");
    a.add(big("1"));
    assert_eq!(a.to_string(), "100000000000000000000");
}

#[test]
fn cmp_orders_by_value() {
    assert!(big("5").cmp(&big("7")) < 0);
    assert!(big("7").cmp(&big("5")) > 0);
    assert_eq!(big("42").cmp(&big("42")), 0);
    assert!(big("100000000000000000000000").cmp(&big("99999999999999999999999")) > 0);
}

#[test]
fn parse_digits_matches_parse() {
    let a = BigInt::parse_digits("9876543210987654321098");
    assert_eq!(a.to_string(), "9876543210987654321098");
    assert_eq!(a.cmp(&big("9876543210987654321098")), 0);
}

#[test]
fn add_commutes_and_zero_changes_nothing() {
    let mut x = big("18446744073709551615");
    x.add(big("99999999999999999999999"));
    let mut y = big("99999999999999999999999");
    y.add(big("18446744073709551615"));
    assert_eq!(x.to_string(), y.to_string());
    let mut z = big("123456789012345678901");
    z.add(big("0"));
    assert_eq!(z.to_string(), "123456789012345678901");
}

#[test]
fn printed_number_reads_back() {
    let a = big("98765432109876543210987654321");
    let b = big(&a.to_string());
    assert_eq!(b.to_string(), a.to_string());
    assert_eq!(big(&big("0").to_string()).to_string(), "0");
}
