use minidns::parse::{parse_ipv4, parse_u64, split_bytes};

#[test]
fn split_keeps_empty_pieces() {
    assert_eq!(split_bytes(b"a  b ", b' '), vec![b"a".to_vec(), vec![], b"b".to_vec(), vec![]]);
    assert_eq!(split_bytes(b"", b' '), vec![Vec::<u8>::new()]);
}

#[test]
fn decimal_numbers() {
    assert_eq!(parse_u64(b"0042"), Some(42));
    assert_eq!(parse_u64(b"+7"), Some(7));
    assert_eq!(parse_u64(b"18446744073709551615"), Some(u64::MAX));
    assert_eq!(parse_u64(b"18446744073709551616"), None);
    assert_eq!(parse_u64(b""), None);
    assert_eq!(parse_u64(b"+"), None);
    assert_eq!(parse_u64(b"-1"), None);
    assert_eq!(parse_u64(b"1a"), None);
}

#[test]
fn dotted_addresses() {
    assert_eq!(parse_ipv4(b"203.0.113.7"), Some(0xCB007107));
    assert_eq!(parse_ipv4(b"255.255.255.255"), Some(u32::MAX));
    assert_eq!(parse_ipv4(b"256.0.0.1"), None);
    assert_eq!(parse_ipv4(b"1.2.3"), None);
    assert_eq!(parse_ipv4(b"1.2.3.4.5"), None);
    assert_eq!(parse_ipv4(b"1.02.3.4"), None);
    assert_eq!(parse_ipv4(b"1..3.4"), None);
    assert_eq!(parse_ipv4(b"0.0.0.0"), Some(0));
}
