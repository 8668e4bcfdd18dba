use opslib::ports::{parse_port, parse_ports, parse_range, validate_ports};
use opslib::range::Range;

#[test]
fn parse_empty() {
    let result = parse_ports("");
    let expected = Ok(Vec::new());
    assert_eq!(result, expected);
}

#[test]
fn parse_single_port() {
    let result = parse_ports("5");
    let expected = Ok(vec![Range::<u16>::new(5, 5).unwrap()]);
    assert_eq!(result, expected);
}

#[test]
fn parse_single_range() {
    let result = parse_ports("5-8");
    let expected = Ok(vec![Range::<u16>::new(5, 8).unwrap()]);
    assert_eq!(result, expected);
}

#[test]
fn parse_multiple() {
    let result = parse_ports("5-8,2,45-80");
    let expected = Ok(vec![
        Range::<u16>::new(2, 2).unwrap(),
        Range::<u16>::new(5, 8).unwrap(),
        Range::<u16>::new(45, 80).unwrap(),
    ]);
    assert_eq!(result, expected);
}

#[test]
fn parse_multiple_and_merge() {
    let result = parse_ports("5-10,9-18,7");
    let expected = Ok(vec![Range::<u16>::new(5, 18).unwrap()]);
    assert_eq!(result, expected);
}

#[test]
fn parse_error_not_num() {
    let result = parse_ports("blah");
    let expected = Err(String::from(
        "Could not parse port value: \"blah\" because invalid digit found in string",
    ));
    assert_eq!(result, expected);
}

#[test]
fn parse_error_too_big() {
    let result = parse_ports("100000");
    let expected = Err(String::from(
        "Could not parse port value: \"100000\" because number too large to fit in target type",
    ));
    assert_eq!(result, expected);
}

#[test]
fn parse_error_reverted_range() {
    let result = parse_ports("10-5");
    let expected = Err(String::from("10 is greater than 5"));
    assert_eq!(result, expected);
}

#[test]
fn parse_error_empty_term() {
    let result = parse_ports("5,,8");
    let expected = Err(String::from(
        "Could not parse port value: \"\" because cannot parse integer from empty string",
    ));
    assert_eq!(result, expected);
}

#[test]
fn parse_port_value() {
    assert_eq!(parse_port("65535"), Ok(65535));
    assert_eq!(parse_port("+7"), Ok(7));
}

#[test]
fn parse_range_term() {
    assert_eq!(parse_range("45-80"), Ok(Range::<u16>::new(45, 80).unwrap()));
    assert_eq!(parse_range("3"), Ok(Range::<u16>::new(3, 3).unwrap()));
}

#[test]
fn parse_ports_merges_touching() {
    let result = parse_ports("1-5,5-9");
    let expected = Ok(vec![Range::<u16>::new(1, 9).unwrap()]);
    assert_eq!(result, expected);
}

#[test]
fn validate_ports_ok_and_err() {
    assert_eq!(validate_ports(String::from("0-1023")), Ok(()));
    assert_eq!(validate_ports(String::from("")), Ok(()));
    assert_eq!(
        validate_ports(String::from("10-5")),
        Err(String::from("10 is greater than 5"))
    );
}
