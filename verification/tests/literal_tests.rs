use addr_codec::addr::{Address, AddressError, IpAddr};
use addr_codec::literal::{parse_ipv4_literal, parse_ipv6_literal};

#[test]
fn socket_address_converts_to_itself() {
    let a = Address::SocketAddress(IpAddr::V6([0, 0, 0, 0, 0, 0, 0, 1]), 53);
    assert_eq!(
        a.to_socket_addr(),
        Ok((IpAddr::V6([0, 0, 0, 0, 0, 0, 0, 1]), 53))
    );
}

#[test]
fn dotted_quad_domain_converts() {
    let a = Address::DomainAddress("203.0.113.5".to_string(), 80);
    assert_eq!(a.to_socket_addr(), Ok((IpAddr::V4([203, 0, 113, 5]), 80)));
}

#[test]
fn hostname_does_not_convert() {
    let a = Address::DomainAddress("example.com".to_string(), 80);
    assert_eq!(
        a.to_socket_addr(),
        Err(AddressError::UnresolvedDomain("example.com".to_string()))
    );
}

#[test]
fn hex_group_domain_converts() {
    let a = Address::DomainAddress("::1".to_string(), 443);
    assert_eq!(
        a.to_socket_addr(),
        Ok((IpAddr::V6([0, 0, 0, 0, 0, 0, 0, 1]), 443))
    );
}

#[test]
fn ipv4_literals_accepted() {
    assert_eq!(parse_ipv4_literal("0.0.0.0"), Some([0, 0, 0, 0]));
    assert_eq!(parse_ipv4_literal("255.255.255.255"), Some([255, 255, 255, 255]));
    assert_eq!(parse_ipv4_literal("127.0.0.1"), Some([127, 0, 0, 1]));
    assert_eq!(parse_ipv4_literal("9.10.99.100"), Some([9, 10, 99, 100]));
}

#[test]
fn ipv4_literals_rejected() {
    assert_eq!(parse_ipv4_literal(""), None);
    assert_eq!(parse_ipv4_literal("1.2.3"), None);
    assert_eq!(parse_ipv4_literal("1.2.3.4.5"), None);
    assert_eq!(parse_ipv4_literal("256.0.0.1"), None);
    assert_eq!(parse_ipv4_literal("01.2.3.4"), None);
    assert_eq!(parse_ipv4_literal("1..2.3"), None);
    assert_eq!(parse_ipv4_literal(".1.2.3"), None);
    assert_eq!(parse_ipv4_literal("1.2.3."), None);
    assert_eq!(parse_ipv4_literal("a.b.c.d"), None);
    assert_eq!(parse_ipv4_literal("1.2.3.4 "), None);
    assert_eq!(parse_ipv4_literal("1000.2.3.4"), None);
}

#[test]
fn ipv6_literals_accepted() {
    assert_eq!(parse_ipv6_literal("::"), Some([0, 0, 0, 0, 0, 0, 0, 0]));
    assert_eq!(parse_ipv6_literal("::1"), Some([0, 0, 0, 0, 0, 0, 0, 1]));
    assert_eq!(parse_ipv6_literal("1::"), Some([1, 0, 0, 0, 0, 0, 0, 0]));
    assert_eq!(
        parse_ipv6_literal("1:2:3:4:5:6:7:8"),
        Some([1, 2, 3, 4, 5, 6, 7, 8])
    );
    assert_eq!(
        parse_ipv6_literal("2001:db8::8a2e:370:7334"),
        Some([0x2001, 0xdb8, 0, 0, 0, 0x8a2e, 0x370, 0x7334])
    );
    assert_eq!(
        parse_ipv6_literal("fe80::1"),
        Some([0xfe80, 0, 0, 0, 0, 0, 0, 1])
    );
    assert_eq!(
        parse_ipv6_literal("A:B:c:d:E:f:0:9"),
        Some([0xa, 0xb, 0xc, 0xd, 0xe, 0xf, 0, 9])
    );
    assert_eq!(
        parse_ipv6_literal("1:2:3:4:5:6:7::"),
        Some([1, 2, 3, 4, 5, 6, 7, 0])
    );
    assert_eq!(
        parse_ipv6_literal("::2:3:4:5:6:7:8"),
        Some([0, 2, 3, 4, 5, 6, 7, 8])
    );
    assert_eq!(
        parse_ipv6_literal("00ff:0:0:0:0:0:0:1"),
        Some([0xff, 0, 0, 0, 0, 0, 0, 1])
    );
}

#[test]
fn embedded_dotted_quad_tails_accepted() {
    assert_eq!(
        parse_ipv6_literal("::ffff:1.2.3.4"),
        Some([0, 0, 0, 0, 0, 0xffff, 0x0102, 0x0304])
    );
    assert_eq!(
        parse_ipv6_literal("::1.2.3.4"),
        Some([0, 0, 0, 0, 0, 0, 0x0102, 0x0304])
    );
    assert_eq!(
        parse_ipv6_literal("64:ff9b::1.2.3.4"),
        Some([0x64, 0xff9b, 0, 0, 0, 0, 0x0102, 0x0304])
    );
    assert_eq!(
        parse_ipv6_literal("1:2:3:4:5:6:1.2.3.4"),
        Some([1, 2, 3, 4, 5, 6, 0x0102, 0x0304])
    );
    assert_eq!(
        parse_ipv6_literal("a::255.255.255.255"),
        Some([0xa, 0, 0, 0, 0, 0, 0xffff, 0xffff])
    );
}

#[test]
fn embedded_dotted_quad_tails_rejected() {
    assert_eq!(parse_ipv6_literal("1.2.3.4"), None);
    assert_eq!(parse_ipv6_literal("1.2.3.4::"), None);
    assert_eq!(parse_ipv6_literal("1:2:3:4:5:6:7:1.2.3.4"), None);
    assert_eq!(parse_ipv6_literal("1:2:3:4:5:6:7::1.2.3.4"), None);
    assert_eq!(parse_ipv6_literal("::1.2.3.4:a"), None);
    assert_eq!(parse_ipv6_literal("::256.1.2.3"), None);
    assert_eq!(parse_ipv6_literal("::01.2.3.4"), None);
    assert_eq!(parse_ipv6_literal("::1.2.3"), None);
}

#[test]
fn mapped_ipv4_domain_converts() {
    let a = Address::DomainAddress("::ffff:203.0.113.5".to_string(), 8443);
    assert_eq!(
        a.to_socket_addr(),
        Ok((IpAddr::V6([0, 0, 0, 0, 0, 0xffff, 0xcb00, 0x7105]), 8443))
    );
}

#[test]
fn ipv6_literals_rejected() {
    assert_eq!(parse_ipv6_literal(""), None);
    assert_eq!(parse_ipv6_literal(":"), None);
    assert_eq!(parse_ipv6_literal(":::"), None);
    assert_eq!(parse_ipv6_literal("1:2:3:4:5:6:7"), None);
    assert_eq!(parse_ipv6_literal("1:2:3:4:5:6:7:8:9"), None);
    assert_eq!(parse_ipv6_literal("1::2::3"), None);
    assert_eq!(parse_ipv6_literal("1:2:3:4:5:6:7:8::"), None);
    assert_eq!(parse_ipv6_literal("::1:2:3:4:5:6:7:8"), None);
    assert_eq!(parse_ipv6_literal("12345::"), None);
    assert_eq!(parse_ipv6_literal("g::1"), None);
    assert_eq!(parse_ipv6_literal(":1:2:3:4:5:6:7"), None);
    assert_eq!(parse_ipv6_literal("1:2:3:4:5:6:7:"), None);
    assert_eq!(parse_ipv6_literal("example.com"), None);
}

#[test]
fn domain_that_is_no_literal_keeps_its_value() {
    let a = Address::DomainAddress("localhost".to_string(), 22);
    assert_eq!(
        a.to_socket_addr(),
        Err(AddressError::UnresolvedDomain("localhost".to_string()))
    );
    // The failed conversion leaves the address itself usable.
    assert_eq!(
        Address::from_data(&a.to_bytes()).unwrap(),
        Address::DomainAddress("localhost".to_string(), 22)
    );
}
