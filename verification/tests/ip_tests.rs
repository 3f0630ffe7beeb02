use nets::ipaddr::{ip_to_string, parse_ip, parse_ipv4, parse_ipv6, IpAddress};

fn cv(s: &str) -> Vec<char> {
    s.chars().collect()
}

#[test]
fn ipv4_text() {
    assert_eq!(ip_to_string(&IpAddress::V4([192, 168, 1, 1])), "192.168.1.1");
    assert_eq!(ip_to_string(&IpAddress::V4([0, 0, 0, 0])), "0.0.0.0");
    assert_eq!(ip_to_string(&IpAddress::V4([255, 255, 255, 255])), "255.255.255.255");
}

#[test]
fn ipv6_text_compresses_first_longest_zero_run() {
    let cases: Vec<([u16; 8], &str)> = vec![
        ([0; 8], "::"),
        ([0, 0, 0, 0, 0, 0, 0, 1], "::1"),
        ([0x2001, 0xdb8, 0, 0, 0, 0, 0, 1], "2001:db8::1"),
        ([1, 0, 0, 1, 0, 0, 0, 1], "1:0:0:1::1"),
        ([1, 0, 0, 1, 0, 0, 1, 1], "1::1:0:0:1:1"),
        ([1, 2, 3, 4, 5, 6, 7, 8], "1:2:3:4:5:6:7:8"),
        ([1, 0, 2, 3, 4, 5, 6, 7], "1:0:2:3:4:5:6:7"),
        ([0xfe80, 0, 0, 0, 0xabcd, 0xef, 0, 0], "fe80::abcd:ef:0:0"),
        ([0, 0, 0, 0, 0, 0xffff, 0xc0a8, 0x0101], "::ffff:192.168.1.1"),
        ([0, 0, 0, 0, 0, 0, 0xc0a8, 0x0101], "::c0a8:101"),
        ([1, 2, 3, 4, 5, 6, 7, 0], "1:2:3:4:5:6:7:0"),
        ([1, 2, 3, 4, 5, 6, 0, 0], "1:2:3:4:5:6::"),
    ];
    for (g, text) in cases {
        assert_eq!(ip_to_string(&IpAddress::V6(g)), text);
    }
}

#[test]
fn ipv4_parsing() {
    assert_eq!(parse_ipv4(&cv("10.0.0.1")), Some([10, 0, 0, 1]));
    assert_eq!(parse_ipv4(&cv("255.255.255.255")), Some([255, 255, 255, 255]));
    assert_eq!(parse_ipv4(&cv("01.0.0.1")), None);
    assert_eq!(parse_ipv4(&cv("256.1.1.1")), None);
    assert_eq!(parse_ipv4(&cv("1.2.3")), None);
    assert_eq!(parse_ipv4(&cv("1.2.3.4.5")), None);
    assert_eq!(parse_ipv4(&cv("1.2..4")), None);
    assert_eq!(parse_ipv4(&cv("1000.2.3.4")), None);
    assert_eq!(parse_ipv4(&cv("")), None);
}

#[test]
fn ipv6_parsing() {
    assert_eq!(parse_ipv6(&cv("::1")), Some([0, 0, 0, 0, 0, 0, 0, 1]));
    assert_eq!(parse_ipv6(&cv("::")), Some([0; 8]));
    assert_eq!(parse_ipv6(&cv("1:2:3:4:5:6:7:8")), Some([1, 2, 3, 4, 5, 6, 7, 8]));
    assert_eq!(parse_ipv6(&cv("1:2:3:4:5:6:7::")), Some([1, 2, 3, 4, 5, 6, 7, 0]));
    assert_eq!(parse_ipv6(&cv("::2:3:4:5:6:7:8")), Some([0, 2, 3, 4, 5, 6, 7, 8]));
    assert_eq!(parse_ipv6(&cv("FFFF::a")), Some([0xffff, 0, 0, 0, 0, 0, 0, 0xa]));
    assert_eq!(
        parse_ipv6(&cv("::ffff:1.2.3.4")),
        Some([0, 0, 0, 0, 0, 0xffff, 0x0102, 0x0304])
    );
    assert_eq!(
        parse_ipv6(&cv("1:2:3:4:5:6:1.2.3.4")),
        Some([1, 2, 3, 4, 5, 6, 0x0102, 0x0304])
    );
    assert_eq!(parse_ipv6(&cv("1:2:3:4:5:6:7")), None);
    assert_eq!(parse_ipv6(&cv("1:2:3:4:5:6:7:8:9")), None);
    assert_eq!(parse_ipv6(&cv("1::2::3")), None);
    assert_eq!(parse_ipv6(&cv(":::")), None);
    assert_eq!(parse_ipv6(&cv("12345::")), None);
    assert_eq!(parse_ipv6(&cv("1:2:3:4:5:6:7:1.2.3.4")), None);
    assert_eq!(parse_ipv6(&cv("1.2.3.4::")), None);
    assert_eq!(parse_ipv6(&cv("1:2:3:4:5:6:7:8::")), None);
    assert_eq!(parse_ipv6(&cv("fe80::1%eth0")), None);
    assert_eq!(parse_ipv6(&cv("")), None);
}

#[test]
fn ip_parsing_prefers_ipv4() {
    assert_eq!(parse_ip(&cv("192.168.0.7")), Some(IpAddress::V4([192, 168, 0, 7])));
    assert_eq!(parse_ip(&cv("fe80::2")), Some(IpAddress::V6([0xfe80, 0, 0, 0, 0, 0, 0, 2])));
    assert_eq!(parse_ip(&cv("bogus")), None);
}

#[test]
fn ip_text_reads_back() {
    let addrs = vec![
        IpAddress::V4([127, 0, 0, 1]),
        IpAddress::V4([10, 20, 30, 40]),
        IpAddress::V6([0; 8]),
        IpAddress::V6([0x2001, 0xdb8, 0, 0, 1, 0, 0, 1]),
        IpAddress::V6([0, 0, 0, 0, 0, 0xffff, 0x7f00, 1]),
        IpAddress::V6([1, 2, 3, 4, 5, 6, 7, 8]),
    ];
    for a in addrs {
        assert_eq!(parse_ip(&cv(&ip_to_string(&a))), Some(a));
    }
}

#[test]
fn ipv4_text_is_canonical() {
    for text in ["1.2.3.4", "0.0.0.0", "192.168.100.200"] {
        let o = parse_ipv4(&cv(text)).unwrap();
        assert_eq!(ip_to_string(&IpAddress::V4(o)), text);
    }
}
