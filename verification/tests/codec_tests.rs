use addr_codec::addr::{Address, AddressError, IpAddr};
use addr_codec::framing::PayloadLen;

#[test]
fn ipv4_scenario() {
    let a = Address::SocketAddress(IpAddr::V4([127, 0, 0, 1]), 8080);
    let bytes = a.to_bytes();
    assert_eq!(bytes, vec![0x01, 0x7f, 0x00, 0x00, 0x01, 0x1f, 0x90]);
    assert_eq!(a.serialized_len(), 7);
    let back = Address::from_data(&bytes).unwrap();
    assert_eq!(back, a);
}

#[test]
fn domain_scenario() {
    let a = Address::DomainAddress("example.com".to_string(), 443);
    let bytes = a.to_bytes();
    assert_eq!(
        bytes,
        vec![
            0x03, 0x0b, 0x65, 0x78, 0x61, 0x6d, 0x70, 0x6c, 0x65, 0x2e, 0x63, 0x6f, 0x6d, 0x01,
            0xbb,
        ]
    );
    assert_eq!(a.serialized_len(), 15);
    let back = Address::from_data(&bytes).unwrap();
    assert_eq!(back, a);
}

#[test]
fn ipv6_scenario() {
    let a = Address::SocketAddress(IpAddr::V6([0, 0, 0, 0, 0, 0, 0, 1]), 53);
    let bytes = a.to_bytes();
    let mut expected = vec![0x04];
    expected.extend_from_slice(&[0u8; 15]);
    expected.push(0x01);
    expected.push(0x00);
    expected.push(0x35);
    assert_eq!(bytes, expected);
    assert_eq!(a.serialized_len(), 19);
    let back = Address::from_data(&bytes).unwrap();
    assert_eq!(back, a);
}

#[test]
fn unknown_tag_fails_before_any_read() {
    assert_eq!(
        Address::payload_len_after_tag(0x02),
        Err(AddressError::UnsupportedType(0x02))
    );
    assert_eq!(
        Address::from_data(&[0x02]),
        Err(AddressError::UnsupportedType(0x02))
    );
    assert_eq!(
        Address::from_data(&[0x00, 0x01, 0x02, 0x03, 0x04, 0x05, 0x06]),
        Err(AddressError::UnsupportedType(0x00))
    );
}

#[test]
fn truncated_domain_fails() {
    // Declares a five-byte name but supplies only two bytes and no port.
    assert_eq!(
        Address::from_data(&[0x03, 0x05, 0x61, 0x62]),
        Err(AddressError::UnexpectedEnd)
    );
}

#[test]
fn truncated_fixed_frames_fail() {
    assert_eq!(Address::from_data(&[]), Err(AddressError::UnexpectedEnd));
    assert_eq!(
        Address::from_data(&[0x01, 0x7f, 0x00, 0x00, 0x01, 0x1f]),
        Err(AddressError::UnexpectedEnd)
    );
    assert_eq!(
        Address::from_data(&[0x04, 0x00, 0x00]),
        Err(AddressError::UnexpectedEnd)
    );
    assert_eq!(Address::from_data(&[0x03]), Err(AddressError::UnexpectedEnd));
}

#[test]
fn invalid_utf8_domain_fails() {
    assert_eq!(
        Address::from_data(&[0x03, 0x02, 0xff, 0xfe, 0x00, 0x50]),
        Err(AddressError::InvalidEncoding)
    );
}

#[test]
fn empty_domain_round_trips() {
    let a = Address::DomainAddress(String::new(), 0);
    let bytes = a.to_bytes();
    assert_eq!(bytes, vec![0x03, 0x00, 0x00, 0x00]);
    assert_eq!(a.serialized_len(), 4);
    assert_eq!(Address::from_data(&bytes).unwrap(), a);
}

#[test]
fn longest_domain_round_trips() {
    let name: String = std::iter::repeat('a').take(255).collect();
    let a = Address::DomainAddress(name, 65535);
    assert_eq!(a.serialized_len(), 259);
    assert_eq!(a.serialized_len(), Address::max_serialized_len());
    let bytes = a.to_bytes();
    assert_eq!(bytes.len(), 259);
    assert_eq!(Address::from_data(&bytes).unwrap(), a);
}

#[test]
fn multibyte_utf8_domain_round_trips() {
    let a = Address::DomainAddress("bücher.example".to_string(), 80);
    let bytes = a.to_bytes();
    assert_eq!(Address::from_data(&bytes).unwrap(), a);
}

#[test]
fn write_appends_without_clearing() {
    let mut buf = vec![0xaa, 0xbb];
    let a = Address::SocketAddress(IpAddr::V4([10, 0, 0, 1]), 1);
    a.write_to_buf(&mut buf);
    assert_eq!(buf, vec![0xaa, 0xbb, 0x01, 10, 0, 0, 1, 0x00, 0x01]);
}

#[test]
fn trailing_bytes_are_ignored() {
    let bytes = [0x01, 0x7f, 0x00, 0x00, 0x01, 0x1f, 0x90, 0xde, 0xad];
    assert_eq!(
        Address::from_data(&bytes).unwrap(),
        Address::SocketAddress(IpAddr::V4([127, 0, 0, 1]), 8080)
    );
}

#[test]
fn max_serialized_len_is_worst_case() {
    assert_eq!(Address::max_serialized_len(), 259);
}

#[test]
fn unspecified_is_zero_ipv4() {
    let a = Address::unspecified();
    assert_eq!(a, Address::SocketAddress(IpAddr::V4([0, 0, 0, 0]), 0));
    assert_eq!(a.serialized_len(), 7);
}

#[test]
fn framing_decisions() {
    assert_eq!(Address::payload_len_after_tag(0x01), Ok(PayloadLen::Fixed(6)));
    assert_eq!(Address::payload_len_after_tag(0x04), Ok(PayloadLen::Fixed(18)));
    assert_eq!(
        Address::payload_len_after_tag(0x03),
        Ok(PayloadLen::DomainPrefixed)
    );
    assert_eq!(Address::payload_len_after_domain_len(11), 13);
    assert_eq!(Address::payload_len_after_domain_len(0), 2);
    assert_eq!(Address::payload_len_after_domain_len(255), 257);
}

#[test]
fn from_pairs() {
    let d = Address::from(("example.com".to_string(), 443));
    assert_eq!(d, Address::DomainAddress("example.com".to_string(), 443));
    let s = Address::from((IpAddr::V4([192, 0, 2, 1]), 80));
    assert_eq!(s, Address::SocketAddress(IpAddr::V4([192, 0, 2, 1]), 80));
    let b = Address::from_domain_str("example.com", 443);
    assert_eq!(b, Address::DomainAddress("example.com".to_string(), 443));
}

#[test]
fn decode_then_encode_reproduces_the_consumed_prefix() {
    let bytes = [0x03, 0x03, 0x61, 0x62, 0x63, 0x00, 0x50, 0xff, 0xff];
    let a = Address::from_data(&bytes).unwrap();
    assert_eq!(a, Address::DomainAddress("abc".to_string(), 80));
    assert_eq!(a.to_bytes(), &bytes[..7]);
}

#[test]
fn port_is_big_endian_on_the_wire() {
    let a = Address::SocketAddress(IpAddr::V4([1, 2, 3, 4]), 0x0102);
    let bytes = a.to_bytes();
    assert_eq!(&bytes[5..], &[0x01, 0x02]);
    let b = Address::from_data(&[0x01, 1, 2, 3, 4, 0xff, 0x01]).unwrap();
    assert_eq!(b, Address::SocketAddress(IpAddr::V4([1, 2, 3, 4]), 0xff01));
}
