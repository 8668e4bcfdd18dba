use opslib::config::build_config;
use opslib::range::Range;

fn v4(a: u32, b: u32, c: u32, d: u32) -> u32 {
    (a << 24) | (b << 16) | (c << 8) | d
}

#[test]
fn build_config_full() {
    let ips = vec![
        String::from("10.0.0.200"),
        String::from("10.0.0.0/24"),
        String::from("::1-::5"),
    ];
    let cfg = build_config(&ips, "0-1023", "", true, Some(100), None).unwrap();
    assert_eq!(
        cfg.tcp_ports,
        vec![Range::<u16>::new(0, 1023).unwrap()]
    );
    assert_eq!(cfg.udp_ports, Vec::new());
    assert_eq!(
        cfg.ipv4,
        vec![Range::<u32>::new(v4(10, 0, 0, 0), v4(10, 0, 0, 255)).unwrap()]
    );
    assert_eq!(cfg.ipv6, vec![Range::<u128>::new(1, 5).unwrap()]);
    assert!(cfg.ping);
    assert_eq!(cfg.max_rate, Some(100));
    assert_eq!(cfg.max_dev_rate, None);
}

#[test]
fn build_config_merges_v4_tokens() {
    let ips = vec![
        String::from("10.0.0.0/25"),
        String::from("10.0.0.100-10.0.0.255"),
    ];
    let cfg = build_config(&ips, "80", "53", false, None, Some(10)).unwrap();
    assert_eq!(
        cfg.ipv4,
        vec![Range::<u32>::new(v4(10, 0, 0, 0), v4(10, 0, 0, 255)).unwrap()]
    );
    assert_eq!(cfg.ipv6, Vec::new());
    assert_eq!(cfg.tcp_ports, vec![Range::<u16>::new(80, 80).unwrap()]);
    assert_eq!(cfg.udp_ports, vec![Range::<u16>::new(53, 53).unwrap()]);
    assert!(!cfg.ping);
    assert_eq!(cfg.max_rate, None);
    assert_eq!(cfg.max_dev_rate, Some(10));
}

#[test]
fn build_config_reports_first_bad_token() {
    let ips = vec![String::from("10.0.0.1"), String::from("10.0.0.5-10.0.0.1")];
    let err = build_config(&ips, "0-1023", "", false, None, None).unwrap_err();
    assert_eq!(err, "10.0.0.5 is greater than 10.0.0.1");
}

#[test]
fn build_config_reports_bad_ports() {
    let ips = vec![String::from("10.0.0.1")];
    let err = build_config(&ips, "blah", "", false, None, None).unwrap_err();
    assert_eq!(
        err,
        "Could not parse port value: \"blah\" because invalid digit found in string"
    );
}
