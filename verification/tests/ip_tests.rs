use ipagg::ip::{ip_allow, ip_text, parse_ip, Ip};

#[test]
fn parses_plain_ipv4() {
    assert_eq!(parse_ip("1.2.3.4"), Some(Ip::V4(1, 2, 3, 4)));
    assert_eq!(parse_ip("0.0.0.0"), Some(Ip::V4(0, 0, 0, 0)));
    assert_eq!(parse_ip("255.255.255.255"), Some(Ip::V4(255, 255, 255, 255)));
}

#[test]
fn rejects_bad_ipv4() {
    assert_eq!(parse_ip("256.1.1.1"), None);
    assert_eq!(parse_ip("1.2.3"), None);
    assert_eq!(parse_ip("1.2.3.4.5"), None);
    assert_eq!(parse_ip("01.2.3.4"), None);
    assert_eq!(parse_ip("1.2.3."), None);
    assert_eq!(parse_ip("1.2.3.x"), None);
    assert_eq!(parse_ip(""), None);
}

#[test]
fn parses_full_ipv6() {
    assert_eq!(
        parse_ip("1:2:3:4:5:6:7:8"),
        Some(Ip::V6(1, 2, 3, 4, 5, 6, 7, 8))
    );
    assert_eq!(
        parse_ip("abcd:ef01:2345:6789:abcd:ef01:2345:6789"),
        Some(Ip::V6(0xabcd, 0xef01, 0x2345, 0x6789, 0xabcd, 0xef01, 0x2345, 0x6789))
    );
    assert_eq!(
        parse_ip("ABCD:EF01:2345:6789:ABCD:EF01:2345:6789"),
        Some(Ip::V6(0xabcd, 0xef01, 0x2345, 0x6789, 0xabcd, 0xef01, 0x2345, 0x6789))
    );
}

#[test]
fn parses_compressed_ipv6() {
    assert_eq!(parse_ip("::"), Some(Ip::V6(0, 0, 0, 0, 0, 0, 0, 0)));
    assert_eq!(parse_ip("::1"), Some(Ip::V6(0, 0, 0, 0, 0, 0, 0, 1)));
    assert_eq!(parse_ip("1::"), Some(Ip::V6(1, 0, 0, 0, 0, 0, 0, 0)));
    assert_eq!(parse_ip("1::2:3"), Some(Ip::V6(1, 0, 0, 0, 0, 0, 2, 3)));
    assert_eq!(
        parse_ip("1:2:3:4:5:6:7::"),
        Some(Ip::V6(1, 2, 3, 4, 5, 6, 7, 0))
    );
}

#[test]
fn parses_embedded_dotted_quad() {
    assert_eq!(
        parse_ip("::ffff:1.2.3.4"),
        Some(Ip::V6(0, 0, 0, 0, 0, 0xffff, 0x0102, 0x0304))
    );
    assert_eq!(
        parse_ip("1:2:3:4:5:6:7.8.9.10"),
        Some(Ip::V6(1, 2, 3, 4, 5, 6, 0x0708, 0x090a))
    );
}

#[test]
fn rejects_bad_ipv6() {
    assert_eq!(parse_ip("1:2:3"), None);
    assert_eq!(parse_ip("1:2:3:4:5:6:7:8:9"), None);
    assert_eq!(parse_ip("1:::2"), None);
    assert_eq!(parse_ip(":1:2:3:4:5:6:7"), None);
    assert_eq!(parse_ip("1:2:3:4:5:6:7:"), None);
    assert_eq!(parse_ip("::1:2:3:4:5:6:7:8"), None);
    assert_eq!(parse_ip("1::2::3"), None);
    assert_eq!(parse_ip("12345::"), None);
    assert_eq!(parse_ip("g::1"), None);
    assert_eq!(parse_ip("1.2.3.4::5"), None);
}

#[test]
fn allows_public_addresses() {
    assert!(ip_allow(&parse_ip("8.8.8.8").unwrap()));
    assert!(ip_allow(&parse_ip("172.32.0.1").unwrap()));
    assert!(ip_allow(&parse_ip("2001:db8::1").unwrap()));
    assert!(ip_allow(&parse_ip("1.2.3.4").unwrap()));
}

#[test]
fn filters_reserved_ipv4() {
    assert!(!ip_allow(&parse_ip("192.168.0.1").unwrap()));
    assert!(!ip_allow(&parse_ip("10.1.2.3").unwrap()));
    assert!(!ip_allow(&parse_ip("172.16.0.1").unwrap()));
    assert!(!ip_allow(&parse_ip("172.31.255.255").unwrap()));
    assert!(!ip_allow(&parse_ip("127.0.0.1").unwrap()));
    assert!(!ip_allow(&parse_ip("255.255.255.255").unwrap()));
    assert!(!ip_allow(&parse_ip("224.0.0.1").unwrap()));
    assert!(!ip_allow(&parse_ip("239.255.255.255").unwrap()));
    assert!(!ip_allow(&parse_ip("0.0.0.0").unwrap()));
    assert!(!ip_allow(&parse_ip("192.0.2.7").unwrap()));
    assert!(!ip_allow(&parse_ip("198.51.100.1").unwrap()));
    assert!(!ip_allow(&parse_ip("203.0.113.9").unwrap()));
    assert!(!ip_allow(&parse_ip("169.254.0.1").unwrap()));
}

#[test]
fn filters_reserved_ipv6() {
    assert!(!ip_allow(&parse_ip("::").unwrap()));
    assert!(!ip_allow(&parse_ip("::1").unwrap()));
    assert!(!ip_allow(&parse_ip("ff02::1").unwrap()));
}

#[test]
fn renders_ipv4() {
    assert_eq!(ip_text(&Ip::V4(8, 8, 8, 8)), "8.8.8.8");
    assert_eq!(ip_text(&Ip::V4(255, 0, 10, 1)), "255.0.10.1");
}

#[test]
fn renders_ipv6_special_forms() {
    assert_eq!(ip_text(&Ip::V6(0, 0, 0, 0, 0, 0, 0, 0)), "::");
    assert_eq!(ip_text(&Ip::V6(0, 0, 0, 0, 0, 0, 0, 1)), "::1");
    assert_eq!(
        ip_text(&Ip::V6(0, 0, 0, 0, 0, 0xffff, 0x0102, 0x0304)),
        "::ffff:1.2.3.4"
    );
}

#[test]
fn renders_ipv6_zero_run_compression() {
    assert_eq!(ip_text(&Ip::V6(1, 0, 0, 0, 0, 0, 2, 3)), "1::2:3");
    assert_eq!(
        ip_text(&Ip::V6(1, 0, 2, 3, 4, 5, 6, 7)),
        "1:0:2:3:4:5:6:7"
    );
    assert_eq!(
        ip_text(&Ip::V6(1, 0, 0, 2, 0, 0, 0, 3)),
        "1:0:0:2::3"
    );
    assert_eq!(
        ip_text(&Ip::V6(1, 0, 0, 2, 3, 0, 0, 4)),
        "1::2:3:0:0:4"
    );
    assert_eq!(
        ip_text(&Ip::V6(0x2001, 0xdb8, 0, 0, 0, 0, 0, 1)),
        "2001:db8::1"
    );
    assert_eq!(ip_text(&Ip::V6(1, 2, 3, 4, 5, 6, 7, 8)), "1:2:3:4:5:6:7:8");
}

#[test]
fn parse_then_render_is_canonical() {
    let ip = parse_ip("0:0:0:0:0:0:0:1").unwrap();
    assert_eq!(ip_text(&ip), "::1");
    let ip = parse_ip("2001:0db8:0000:0000:0000:0000:0000:0001").unwrap();
    assert_eq!(ip_text(&ip), "2001:db8::1");
}
