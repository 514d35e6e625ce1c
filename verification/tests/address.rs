use anyst::addr::split_host_port;
use anyst::addr::Address;
use anyst::addr::IpLiteral;
use anyst::anytls::frame::decode_socks_addr;
use anyst::anytls::frame::encode_socks_addr;
use anyst::tuic::packet::decode_tuic_addr;
use anyst::tuic::packet::encode_tuic_addr;

#[test]
fn host_and_port_split_at_the_last_colon() {
    assert_eq!(split_host_port("example.com:80"), Some(("example.com".to_string(), 80)));
    assert_eq!(split_host_port("a:b:65535"), Some(("a:b".to_string(), 65535)));
    assert_eq!(split_host_port(":1"), Some((String::new(), 1)));
    assert_eq!(split_host_port("host:+7"), Some(("host".to_string(), 7)));
    assert_eq!(split_host_port(""), None);
    assert_eq!(split_host_port("host"), None);
    assert_eq!(split_host_port("host:"), None);
    assert_eq!(split_host_port("host:65536"), None);
    assert_eq!(split_host_port("host:http"), None);
}

#[test]
fn socks_addresses_have_their_types() {
    assert_eq!(encode_socks_addr("", None), vec![0]);
    assert_eq!(encode_socks_addr("nowhere", None), vec![0]);
    assert_eq!(
        encode_socks_addr("1.2.3.4:258", Some(IpLiteral::V4([1, 2, 3, 4]))),
        vec![1, 1, 2, 3, 4, 1, 2]
    );
    let mut v6 = vec![4u8];
    v6.extend_from_slice(&[0, 0, 0, 0, 0, 0, 0, 0, 0, 0, 0, 0, 0, 0, 0, 1]);
    v6.extend_from_slice(&[0, 80]);
    let mut one = [0u8; 16];
    one[15] = 1;
    assert_eq!(encode_socks_addr("::1:80", Some(IpLiteral::V6(one))), v6);
    assert_eq!(encode_socks_addr("ab:80", None), vec![3, 2, b'a', b'b', 0, 80]);
}

#[test]
fn tuic_addresses_have_their_types() {
    assert_eq!(encode_tuic_addr("", None), vec![0xFF]);
    assert_eq!(
        encode_tuic_addr("1.2.3.4:258", Some(IpLiteral::V4([1, 2, 3, 4]))),
        vec![1, 1, 2, 3, 4, 1, 2]
    );
    assert_eq!(encode_tuic_addr("x:1", Some(IpLiteral::V6([0; 16])))[0], 2);
    assert_eq!(encode_tuic_addr("ab:80", None), vec![0, 2, b'a', b'b', 0, 80]);
}

#[test]
fn long_names_are_left_out() {
    let fits = format!("{}:1", "n".repeat(255));
    assert_eq!(encode_socks_addr(&fits, None).len(), 1 + 1 + 255 + 2);
    let long = format!("{}:1", "n".repeat(256));
    assert_eq!(encode_socks_addr(&long, None), vec![0]);
    assert_eq!(encode_tuic_addr(&long, None), vec![0xFF]);
    let wide = format!("{}:1", "\u{e9}".repeat(128));
    assert_eq!(encode_socks_addr(&wide, None), vec![0]);
}

#[test]
fn addresses_survive_the_wire() {
    for (text, ip, want) in [
        ("", None, Address::Unset),
        ("1.2.3.4:5", Some(IpLiteral::V4([1, 2, 3, 4])), Address::V4([1, 2, 3, 4], 5)),
        ("x:5", Some(IpLiteral::V6([9; 16])), Address::V6([9; 16], 5)),
        ("h\u{f6}st:5", None, Address::Domain("h\u{f6}st".to_string(), 5)),
    ] {
        let mut bytes = encode_socks_addr(text, ip);
        let len = bytes.len();
        bytes.extend_from_slice(b"rest");
        assert_eq!(decode_socks_addr(&bytes), Some((want.clone(), len)));
        let mut bytes = encode_tuic_addr(text, ip);
        let len = bytes.len();
        bytes.extend_from_slice(b"rest");
        assert_eq!(decode_tuic_addr(&bytes), Some((want, len)));
    }
}

#[test]
fn cut_off_addresses_are_refused() {
    assert_eq!(decode_socks_addr(&[]), None);
    assert_eq!(decode_socks_addr(&[1, 1, 2, 3, 4, 5]), None);
    assert_eq!(decode_socks_addr(&[4; 18]), None);
    assert_eq!(decode_socks_addr(&[3]), None);
    assert_eq!(decode_socks_addr(&[3, 2, b'a', b'b', 0]), None);
    assert_eq!(decode_socks_addr(&[2, 0, 0]), None);
    assert_eq!(decode_tuic_addr(&[]), None);
    assert_eq!(decode_tuic_addr(&[3, 0, 0]), None);
    assert_eq!(decode_tuic_addr(&[0, 1, b'a', 0]), None);
}

#[test]
fn broken_names_are_repaired() {
    assert_eq!(
        decode_socks_addr(&[3, 2, b'a', 0xFF, 0, 1]),
        Some((Address::Domain("a\u{fffd}".to_string(), 1), 6))
    );
}
