use minidns::buffer::BytePacketBuffer;
use minidns::dns::{DnsHeader, DnsPacket, DnsQuestion, DnsRecord, QueryType, ResultCode};
use minidns::error::DnsError;

fn encode(packet: &mut DnsPacket) -> BytePacketBuffer {
    let mut buf = BytePacketBuffer::new();
    packet.write(&mut buf).unwrap();
    buf.len = buf.pos;
    buf.pos = 0;
    buf
}

fn sample() -> DnsPacket {
    let mut p = DnsPacket::new();
    p.header.id = 0xBEEF;
    p.header.response = true;
    p.header.opcode = 2;
    p.header.authoritative_answer = true;
    p.header.recursion_desired = true;
    p.header.recursion_available = true;
    p.header.authed_data = true;
    p.header.rescode = ResultCode::NXDOMAIN;
    p.questions.push(DnsQuestion::new("example.com".to_string(), QueryType::MX));
    p.answers.push(DnsRecord::A { domain: "example.com".to_string(), addr: 0x5DB8D822, ttl: 3600 });
    p.answers.push(DnsRecord::MX {
        domain: "example.com".to_string(),
        priority: 10,
        host: "mail.example.com".to_string(),
        ttl: 60,
    });
    p.answers.push(DnsRecord::CNAME {
        domain: "www.example.com".to_string(),
        host: "example.com".to_string(),
        ttl: 5,
    });
    p.authorities.push(DnsRecord::NS {
        domain: "example.com".to_string(),
        host: "a.iana-servers.net".to_string(),
        ttl: 172800,
    });
    p.resources.push(DnsRecord::AAAA {
        domain: "a.iana-servers.net".to_string(),
        addr: 0x2001_0500_008f_0000_0000_0000_0000_0053,
        ttl: 7,
    });
    p
}

#[test]
fn round_trip_keeps_packet() {
    let mut p = sample();
    let mut buf = encode(&mut p);
    let q = DnsPacket::from_buffer(&mut buf).unwrap();
    assert_eq!(p, q);
    assert_eq!(p.header.questions, 1);
    assert_eq!(p.header.answers, 3);
    assert_eq!(p.header.authoritative_entries, 1);
    assert_eq!(p.header.resource_entries, 1);
    assert_eq!(buf.pos, buf.len);
}

#[test]
fn header_flag_bytes() {
    let mut p = DnsPacket::new();
    p.header.id = 0x1234;
    p.header.response = true;
    p.header.opcode = 0xF;
    p.header.recursion_desired = true;
    p.header.recursion_available = true;
    p.header.z = true;
    p.header.rescode = ResultCode::REFUSED;
    let buf = encode(&mut p);
    assert_eq!(&buf.buf[0..12], &[0x12, 0x34, 0xF9, 0xC5, 0, 0, 0, 0, 0, 0, 0, 0]);
}

#[test]
fn question_wire_bytes() {
    let mut p = DnsPacket::new();
    p.header.id = 1;
    p.header.recursion_desired = true;
    p.questions.push(DnsQuestion::new("ab.c".to_string(), QueryType::A));
    let buf = encode(&mut p);
    assert_eq!(buf.len, 12 + 6 + 4);
    assert_eq!(&buf.buf[12..22], &[2, b'a', b'b', 1, b'c', 0, 0, 1, 0, 1]);
}

#[test]
fn read_qname_follows_pointer_and_lowercases() {
    let mut buf = BytePacketBuffer::new();
    let bytes = [3, b'C', b'O', b'M', 0, 3, b'W', b'w', b'W', 0xC0, 0];
    buf.buf[..bytes.len()].copy_from_slice(&bytes);
    buf.len = bytes.len();
    buf.pos = 5;
    let mut name = String::new();
    buf.read_qname(&mut name).unwrap();
    assert_eq!(name, "www.com");
    assert_eq!(buf.pos, 11);
}

#[test]
fn read_qname_replaces_bad_utf8() {
    let mut buf = BytePacketBuffer::new();
    let bytes = [2, 0xFF, b'A', 0];
    buf.buf[..bytes.len()].copy_from_slice(&bytes);
    buf.len = bytes.len();
    let mut name = String::from("x:");
    buf.read_qname(&mut name).unwrap();
    assert_eq!(name, "x:\u{FFFD}a");
}

#[test]
fn pointer_loop_is_refused() {
    let mut buf = BytePacketBuffer::new();
    buf.buf[0] = 0xC0;
    buf.buf[1] = 2;
    buf.buf[2] = 0xC0;
    buf.buf[3] = 0;
    let mut name = String::new();
    assert_eq!(buf.read_qname(&mut name), Err(DnsError::JumpsExceeded));
    let mut buf = BytePacketBuffer::new();
    buf.buf[10] = 1;
    buf.buf[11] = b'a';
    buf.buf[12] = 0xC0;
    buf.buf[13] = 10;
    buf.pos = 10;
    assert_eq!(buf.read_qname(&mut name), Err(DnsError::JumpsExceeded));
}

#[test]
fn read_past_len_is_end_of_buffer() {
    let mut buf = BytePacketBuffer::new();
    buf.len = 3;
    buf.pos = 2;
    assert_eq!(buf.read_u16(), Err(DnsError::EndOfBuffer));
    assert_eq!(buf.read(), Ok(0));
    assert_eq!(buf.read(), Err(DnsError::EndOfBuffer));
    assert_eq!(buf.get(3), Err(DnsError::EndOfBuffer));
    assert!(buf.get_range(1, 3).is_err());
    assert_eq!(buf.get_range(1, 2).unwrap(), &[0, 0]);
}

#[test]
fn big_endian_numbers() {
    let mut buf = BytePacketBuffer::new();
    buf.write_u16(0xABCD).unwrap();
    buf.write_u32(0x01020304).unwrap();
    buf.write(9).unwrap();
    assert_eq!(&buf.buf[0..7], &[0xAB, 0xCD, 1, 2, 3, 4, 9]);
    buf.set_u16(0, 0x0102).unwrap();
    buf.set(6, 7).unwrap();
    buf.seek(0).unwrap();
    assert_eq!(buf.read_u16(), Ok(0x0102));
    assert_eq!(buf.read_u32(), Ok(0x01020304));
    assert_eq!(buf.read(), Ok(7));
    buf.step(3).unwrap();
    assert_eq!(buf.pos(), 10);
}

#[test]
fn long_label_is_refused() {
    let mut buf = BytePacketBuffer::new();
    let label: String = std::iter::repeat('a').take(64).collect();
    assert_eq!(buf.write_qname(&label), Err(DnsError::LabelTooLong));
    let mut buf = BytePacketBuffer::new();
    let label: String = std::iter::repeat('a').take(63).collect();
    buf.write_qname(&format!("x.{label}")).unwrap();
    assert_eq!(buf.pos, 1 + 1 + 1 + 63 + 1);
    assert_eq!(buf.buf[2], 63);
}

#[test]
fn name_that_does_not_fit_is_end_of_buffer() {
    let mut buf = BytePacketBuffer::new();
    buf.pos = 505;
    assert_eq!(buf.write_qname("abcde.f"), Err(DnsError::EndOfBuffer));
    buf.pos = 503;
    assert_eq!(buf.write_qname("abcde.f"), Ok(()));
    assert_eq!(buf.pos, 512);
}

#[test]
fn unknown_record_is_skipped_on_read_and_dropped_on_write() {
    let mut buf = BytePacketBuffer::new();
    let bytes = [0, 0x00, 0x63, 0, 1, 0, 0, 0, 9, 0, 3, 1, 2, 3, 0, 0, 1, 0, 1];
    buf.buf[..bytes.len()].copy_from_slice(&bytes);
    buf.len = bytes.len();
    let rec = DnsRecord::read(&mut buf).unwrap();
    assert_eq!(rec, DnsRecord::UNKNOWN { domain: String::new(), qtype: 99, data_len: 3, ttl: 9 });
    assert_eq!(buf.pos, 14);
    let mut out = BytePacketBuffer::new();
    rec.write(&mut out).unwrap();
    assert_eq!(out.pos, 0);
}

#[test]
fn truncated_packet_is_end_of_buffer() {
    let mut p = sample();
    let mut buf = encode(&mut p);
    buf.len -= 1;
    assert_eq!(DnsPacket::from_buffer(&mut buf), Err(DnsError::EndOfBuffer));
}

#[test]
fn resolved_and_unresolved_ns() {
    let mut p = DnsPacket::new();
    p.authorities.push(DnsRecord::NS { domain: "org".to_string(), host: "ns.org".to_string(), ttl: 1 });
    p.authorities.push(DnsRecord::NS { domain: "example.com".to_string(), host: "b.ns".to_string(), ttl: 1 });
    p.authorities.push(DnsRecord::NS { domain: "com".to_string(), host: "c.ns".to_string(), ttl: 1 });
    p.resources.push(DnsRecord::A { domain: "c.ns".to_string(), addr: 3, ttl: 1 });
    p.resources.push(DnsRecord::A { domain: "b.ns".to_string(), addr: 2, ttl: 1 });
    assert_eq!(p.get_resolved_ns("www.example.com"), Some(2));
    assert_eq!(p.get_unresolved_ns("www.example.com"), Some("b.ns".to_string()));
    assert_eq!(p.get_resolved_ns("example.net"), None);
    assert_eq!(p.get_unresolved_ns("example.net"), None);
    assert_eq!(p.get_unresolved_ns("a.org"), Some("ns.org".to_string()));
    assert_eq!(p.get_resolved_ns("a.org"), None);
}

#[test]
fn codes_and_types() {
    assert_eq!(ResultCode::from_num(3), ResultCode::NXDOMAIN);
    assert_eq!(ResultCode::from_num(9), ResultCode::NOERROR);
    assert_eq!(ResultCode::REFUSED.to_num(), 5);
    assert_eq!(QueryType::from_num(28), QueryType::AAAA);
    assert_eq!(QueryType::from_num(99), QueryType::UNKNOWN(99));
    assert_eq!(QueryType::MX.to_num(), 15);
    assert_eq!(DnsHeader::new().rescode, ResultCode::NOERROR);
}

#[test]
fn failed_read_keeps_cursor_past_first_pointer() {
    let mut b = BytePacketBuffer::new();
    b.buf[0] = 0xC0;
    b.buf[1] = 0x00;
    let mut s = String::new();
    assert_eq!(b.read_qname(&mut s), Err(DnsError::JumpsExceeded));
    assert_eq!(s, "");
    assert_eq!(b.pos, 2);
}

#[test]
fn failed_read_keeps_labels_read_before() {
    let mut b = BytePacketBuffer::new();
    let bytes = [2, b'N', b's', 5, b'x'];
    b.buf[..bytes.len()].copy_from_slice(&bytes);
    b.len = bytes.len();
    let mut s = String::from(">");
    assert_eq!(b.read_qname(&mut s), Err(DnsError::EndOfBuffer));
    assert_eq!(s, ">ns.");
    assert_eq!(b.pos, 0);
}
