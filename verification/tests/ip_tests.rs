use opslib::ip::{parse_ip, parse_single_ip, validate_ip, IpAddress, IpRangeUniversal};

fn v4(a: u32, b: u32, c: u32, d: u32) -> u32 {
    (a << 24) | (b << 16) | (c << 8) | d
}

#[test]
fn parse_single_ip_ok() {
    let result = parse_single_ip("172.56.33.7");
    let expected = Ok(IpAddress::V4(v4(172, 56, 33, 7)));
    assert_eq!(result, expected);
}

#[test]
fn parse_single_ip_err() {
    let result = parse_single_ip("172.56.3c.7");
    let expected = Err(String::from(
        "Could not parse IP from 172.56.3c.7 because of invalid IP address syntax",
    ));
    assert_eq!(result, expected);
}

#[test]
fn parse_single_ip_v6() {
    let result = parse_single_ip("::1");
    let expected = Ok(IpAddress::V6(1));
    assert_eq!(result, expected);
}

#[test]
fn ip_single_token_is_degenerate_range() {
    match parse_ip("1.2.3.4") {
        Ok(IpRangeUniversal::V4(r)) => {
            assert_eq!(*r.from(), v4(1, 2, 3, 4));
            assert_eq!(*r.to(), v4(1, 2, 3, 4));
        }
        other => panic!("unexpected result: {:?}", other),
    }
}

#[test]
fn ip_range_token() {
    match parse_ip("10.0.0.1-10.0.0.9") {
        Ok(IpRangeUniversal::V4(r)) => {
            assert_eq!(*r.from(), v4(10, 0, 0, 1));
            assert_eq!(*r.to(), v4(10, 0, 0, 9));
        }
        other => panic!("unexpected result: {:?}", other),
    }
}

#[test]
fn ip_range_token_v6() {
    match parse_ip("::1-::5") {
        Ok(IpRangeUniversal::V6(r)) => {
            assert_eq!(*r.from(), 1);
            assert_eq!(*r.to(), 5);
        }
        other => panic!("unexpected result: {:?}", other),
    }
}

#[test]
fn ip_range_reversed() {
    let result = parse_ip("10.0.0.5-10.0.0.1");
    match result {
        Err(m) => assert_eq!(m, "10.0.0.5 is greater than 10.0.0.1"),
        other => panic!("unexpected result: {:?}", other),
    }
}

#[test]
fn ip_range_mixed_versions() {
    let result = parse_ip("10.0.0.1-::1");
    match result {
        Err(m) => assert_eq!(m, "Mixed IP versions in range 10.0.0.1-::1"),
        other => panic!("unexpected result: {:?}", other),
    }
}

#[test]
fn ip_network_v4() {
    match parse_ip("10.0.0.0/24") {
        Ok(IpRangeUniversal::V4(r)) => {
            assert_eq!(*r.from(), v4(10, 0, 0, 0));
            assert_eq!(*r.to(), v4(10, 0, 0, 255));
        }
        other => panic!("unexpected result: {:?}", other),
    }
}

#[test]
fn ip_network_v4_host_bits_masked() {
    match parse_ip("10.0.0.5/24") {
        Ok(IpRangeUniversal::V4(r)) => {
            assert_eq!(*r.from(), v4(10, 0, 0, 0));
            assert_eq!(*r.to(), v4(10, 0, 0, 255));
        }
        other => panic!("unexpected result: {:?}", other),
    }
}

#[test]
fn ip_network_v6_broadcast() {
    match parse_ip("fe::/123") {
        Ok(IpRangeUniversal::V6(r)) => {
            assert_eq!(*r.from(), 0xfeu128 << 112);
            assert_eq!(*r.to(), (0xfeu128 << 112) | 0x1f);
        }
        other => panic!("unexpected result: {:?}", other),
    }
}

#[test]
fn ip_network_bad_prefix() {
    let result = parse_ip("10.0.0.0/33");
    let expected = Err(String::from(
        "Could not parse IP network from 10.0.0.0/33 because of invalid IP address syntax",
    ));
    assert_eq!(result, expected);
}

#[test]
fn ip_network_bad_address() {
    let result = parse_ip("10.0.0/8");
    let expected = Err(String::from(
        "Could not parse IP network from 10.0.0/8 because of invalid IP address syntax",
    ));
    assert_eq!(result, expected);
}

#[test]
fn ip_leading_zero_octet_rejected() {
    let result = parse_single_ip("192.168.00.1");
    let expected = Err(String::from(
        "Could not parse IP from 192.168.00.1 because of invalid IP address syntax",
    ));
    assert_eq!(result, expected);
}

#[test]
fn validate_ip_ok_and_err() {
    assert_eq!(validate_ip(String::from("10.0.0.0/24")), Ok(()));
    assert_eq!(validate_ip(String::from("::1")), Ok(()));
    assert!(validate_ip(String::from("nonsense")).is_err());
}
