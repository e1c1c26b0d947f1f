use dnsmasq_agent::cidr::Cidr;
use dnsmasq_agent::ip::{IpAddress, SocketAddress};

fn ip(text: &str) -> IpAddress {
    IpAddress::parse(text).unwrap()
}

#[test]
fn cidr_contains_ipv4() {
    let cidr = Cidr::from_str("192.168.0.0/24").unwrap();
    assert!(cidr.contains(ip("192.168.0.9")));
    assert!(!cidr.contains(ip("192.168.1.9")));
}

#[test]
fn cidr_contains_ipv6() {
    let cidr = Cidr::from_str("fe80::/10").unwrap();
    assert!(cidr.contains(ip("fe80::1")));
    assert!(cidr.contains(ip("febf:ffff::")));
    assert!(!cidr.contains(ip("fec0::")));
    assert!(!cidr.contains(ip("192.168.0.1")));
}

#[test]
fn cidr_with_empty_prefix_holds_its_version() {
    let four = Cidr::from_str("10.0.0.0/0").unwrap();
    assert!(four.contains(ip("255.255.255.255")));
    assert!(!four.contains(ip("::1")));
    let six = Cidr::from_str("::/0").unwrap();
    assert!(six.contains(ip("ffff::1")));
    assert!(!six.contains(ip("0.0.0.0")));
}

#[test]
fn cidr_with_full_prefix_holds_one_address() {
    let four = Cidr::from_str("10.0.0.7/32").unwrap();
    assert!(four.contains(ip("10.0.0.7")));
    assert!(!four.contains(ip("10.0.0.6")));
    let six = Cidr::from_str("2001:db8::7/128").unwrap();
    assert!(six.contains(ip("2001:db8::7")));
    assert!(!six.contains(ip("2001:db8::6")));
}

#[test]
fn shorter_prefix_holds_more() {
    let narrow = Cidr::from_str("10.1.2.0/24").unwrap();
    let wide = Cidr::from_str("10.1.2.0/16").unwrap();
    assert!(narrow.contains(ip("10.1.2.200")) && wide.contains(ip("10.1.2.200")));
    assert!(!narrow.contains(ip("10.1.3.200")) && wide.contains(ip("10.1.3.200")));
}

#[test]
fn cidr_holds_its_network_even_with_host_bits() {
    let cidr = Cidr::from_str("10.1.2.3/8").unwrap();
    assert!(cidr.contains(ip("10.1.2.3")));
    assert!(cidr.contains(ip("10.200.0.1")));
}

#[test]
fn cidr_errors() {
    assert_eq!(
        Cidr::from_str("192.168.0.0").unwrap_err().message,
        "invalid mask `192.168.0.0`; expected CIDR like 192.168.0.0/24"
    );
    assert_eq!(
        Cidr::from_str("192.168.0/24").unwrap_err().message,
        "invalid IP in mask `192.168.0/24`"
    );
    assert_eq!(
        Cidr::from_str("192.168.0.0/x").unwrap_err().message,
        "invalid prefix length in mask `192.168.0.0/x`"
    );
    assert_eq!(
        Cidr::from_str("192.168.0.0/256").unwrap_err().message,
        "invalid prefix length in mask `192.168.0.0/256`"
    );
    assert_eq!(
        Cidr::from_str("192.168.0.0/33").unwrap_err().message,
        "prefix length 33 out of range for `192.168.0.0/33`"
    );
    assert_eq!(
        Cidr::from_str("::/129").unwrap_err().message,
        "prefix length 129 out of range for `::/129`"
    );
    assert!(Cidr::from_str("192.168.0.0/+24").is_ok());
}

#[test]
fn version_four_texts() {
    for (text, value) in [
        ("0.0.0.0", 0u32),
        ("255.255.255.255", u32::MAX),
        ("1.2.3.4", 0x0102_0304),
        ("192.168.0.21", 0xc0a8_0015),
    ] {
        assert_eq!(IpAddress::parse(text), Some(IpAddress::V4(value)));
        assert_eq!(IpAddress::V4(value).text(), text);
    }
}

#[test]
fn version_six_texts() {
    for (text, value, written) in [
        ("::", 0u128, "::"),
        ("::1", 1, "::1"),
        ("1::", 0x0001_0000_0000_0000_0000_0000_0000_0000, "1::"),
        ("1:2:3:4:5:6:7:8", 0x0001_0002_0003_0004_0005_0006_0007_0008, "1:2:3:4:5:6:7:8"),
        ("1::8", 0x0001_0000_0000_0000_0000_0000_0000_0008, "1::8"),
        ("::ffff:1.2.3.4", 0xffff_0102_0304, "::ffff:1.2.3.4"),
        ("::ffff:102:304", 0xffff_0102_0304, "::ffff:1.2.3.4"),
        ("::1.2.3.4", 0x0102_0304, "::102:304"),
        ("1:2:3:4:5:6:1.2.3.4", 0x0001_0002_0003_0004_0005_0006_0102_0304, "1:2:3:4:5:6:102:304"),
        ("FE80::A", 0xfe80_0000_0000_0000_0000_0000_0000_000a, "fe80::a"),
        ("2001:db8:0:0:1:0:0:1", 0x2001_0db8_0000_0000_0001_0000_0000_0001, "2001:db8::1:0:0:1"),
        ("0:0:1:0:0:0:1:1", 0x0000_0000_0001_0000_0000_0000_0001_0001, "0:0:1::1:1"),
        ("1:0:0:2:0:0:0:3", 0x0001_0000_0000_0002_0000_0000_0000_0003, "1:0:0:2::3"),
        ("1:0:2:3:4:5:6:7", 0x0001_0000_0002_0003_0004_0005_0006_0007, "1:0:2:3:4:5:6:7"),
        ("1:2:3:4:5:6:7::", 0x0001_0002_0003_0004_0005_0006_0007_0000, "1:2:3:4:5:6:7:0"),
        ("::2:3:4:5:6:7:8", 0x0000_0002_0003_0004_0005_0006_0007_0008, "0:2:3:4:5:6:7:8"),
        ("0001:0:0:0:0:0:0:0002", 0x0001_0000_0000_0000_0000_0000_0000_0002, "1::2"),
        ("ffff:ffff:ffff:ffff:ffff:ffff:255.255.255.255", u128::MAX, "ffff:ffff:ffff:ffff:ffff:ffff:ffff:ffff"),
    ] {
        assert_eq!(IpAddress::parse(text), Some(IpAddress::V6(value)), "{}", text);
        assert_eq!(IpAddress::V6(value).text(), written);
        assert_eq!(IpAddress::parse(written), Some(IpAddress::V6(value)));
    }
}

#[test]
fn other_texts_are_no_addresses() {
    for text in [
        "", "01.2.3.4", "1.2.3", "1.2.3.4.5", "256.1.1.1", "1.2.3.4 ", " 1.2.3.4", "-1.2.3.4",
        "+1.2.3.4", "1..2.3", "1.2.3.", "1:2:3:4:5:6:7", "1::2::3", "1:2:3:4:5:6:7:1.2.3.4",
        "fe80::1%1", "00001::", "::12345", ":::", ":1", "1:", "[::1]", "::g", "1:2:3:4:5:6:7::8",
        "1.2.3.4::", "::1.2.3", "::1.2.3.04", "1:2:3:4:5:6:7:8:9", "localhost",
    ] {
        assert_eq!(IpAddress::parse(text), None, "{}", text);
    }
}

#[test]
fn version_four_comes_first() {
    assert!(ip("255.255.255.255").comes_before(&ip("::")));
    assert!(ip("9.0.0.0").comes_before(&ip("10.0.0.0")));
    assert!(!ip("::1").comes_before(&ip("::1")));
}

#[test]
fn socket_addresses() {
    for (text, address, port, scope) in [
        ("192.168.33.22:8000", "192.168.33.22", 8000u16, 0u32),
        ("0.0.0.0:0", "0.0.0.0", 0, 0),
        ("1.2.3.4:65535", "1.2.3.4", 65535, 0),
        ("[::1]:80", "::1", 80, 0),
        ("[::]:00080", "::", 80, 0),
        ("[fe80::1%5]:80", "fe80::1", 80, 5),
    ] {
        let got = SocketAddress::parse(text).unwrap();
        assert_eq!((got.ip, got.port, got.scope), (ip(address), port, scope));
    }
}

#[test]
fn other_texts_are_no_socket_addresses() {
    for text in [
        "", "1.2.3.4", "1.2.3.4:", "1.2.3.4:65536", ":80", "localhost:80", "::1:80", "[::1]",
        "[::1]:", "1.2.3.4:+80", "[1.2.3.4]:80", "[fe80::1%]:80", "[fe80::1%4294967296]:80",
        "1.2.3.4:80 ",
    ] {
        assert!(SocketAddress::parse(text).is_none(), "{}", text);
    }
}
