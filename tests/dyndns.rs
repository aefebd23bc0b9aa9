use minidns::dns::{DnsPacket, DnsQuestion, QueryType, ResultCode};
use minidns::dyndns::{
    check_dyndns_md5, check_dyndns_time, dyndns_packet, update_id, write_decimal, DyndnsOutcome,
    C_2023_01_01,
};
use minidns::error::DnsError;
use minidns::resolver::{Action, IpAddress, PeerAddr, Resolver};

const NOW: u64 = 1_700_000_000;

fn packet(digest: &str, id: u64, host: &str, ip: &str) -> Vec<u8> {
    format!("kdns {digest} {id} {host} {ip}").into_bytes()
}

fn digest(id: u64, host: &str, ip: &str, key: &str) -> String {
    format!("{:x}", md5::compute(format!("{id}{host}{ip}{key}")))
}

fn lookup(r: &mut Resolver, name: &str) -> (ResultCode, Vec<minidns::dns::DnsRecord>) {
    let mut q = DnsPacket::new();
    q.header.id = 1;
    q.questions.push(DnsQuestion::new(name.to_string(), QueryType::A));
    let src = PeerAddr { ip: IpAddress::V4(1), port: 1 };
    match r.handle_request(&q, src, NOW).unwrap() {
        Action::Respond { packet, .. } => (packet.header.rescode, packet.answers),
        _ => panic!("expected a response"),
    }
}

fn reply_text(o: DyndnsOutcome) -> (String, Option<DnsError>) {
    match o {
        DyndnsOutcome::Reply { text, err } => (text, err),
        DyndnsOutcome::NotDyndns => panic!("packet not taken as an update"),
    }
}

#[test]
fn dynamic_update_self_ip() {
    let mut r = Resolver::new(IpAddress::V4(0), 300, "s3cr3t".to_string());
    let id = NOW - C_2023_01_01;
    let d = digest(id, "home.lan", "0.0.0.0", "s3cr3t");
    let p = packet(&d, id, "home.lan", "0.0.0.0");
    let (text, err) = reply_text(r.dyn_dns(&p, "203.0.113.7", NOW));
    assert_eq!(text, "home.lan 203.0.113.7");
    assert_eq!(err, None);
    let (code, answers) = lookup(&mut r, "home.lan");
    assert_eq!(code, ResultCode::NOERROR);
    assert_eq!(answers, vec![minidns::dns::DnsRecord::A { domain: "home.lan".to_string(), addr: 0xCB007107, ttl: 300 }]);
}

#[test]
fn dynamic_update_literal_ip() {
    let mut r = Resolver::new(IpAddress::V4(0), 300, "k".to_string());
    let id = NOW - C_2023_01_01 - 600;
    let d = digest(id, "box.lan", "10.1.2.3", "k");
    let p = packet(&d, id, "box.lan", "10.1.2.3");
    let (text, err) = reply_text(r.dyn_dns(&p, "203.0.113.7", NOW));
    assert_eq!(text, "box.lan 10.1.2.3");
    assert_eq!(err, None);
    assert_eq!(lookup(&mut r, "box.lan").1.len(), 1);
}

#[test]
fn dynamic_update_bad_digest() {
    let mut r = Resolver::new(IpAddress::V4(0), 300, "s3cr3t".to_string());
    let id = NOW - C_2023_01_01;
    let p = packet("00000000000000000000000000000000", id, "home.lan", "0.0.0.0");
    let (text, err) = reply_text(r.dyn_dns(&p, "203.0.113.7", NOW));
    assert_eq!(text, "error");
    assert_eq!(err, Some(DnsError::DyndnsChecksum));
    assert_eq!(lookup(&mut r, "home.lan").0, ResultCode::NXDOMAIN);
}

#[test]
fn dynamic_update_outside_window() {
    let mut r = Resolver::new(IpAddress::V4(0), 300, "s3cr3t".to_string());
    let id = NOW - C_2023_01_01 + 601;
    let d = digest(id, "home.lan", "0.0.0.0", "s3cr3t");
    let p = packet(&d, id, "home.lan", "0.0.0.0");
    let (text, err) = reply_text(r.dyn_dns(&p, "203.0.113.7", NOW));
    assert_eq!(text, "error");
    assert_eq!(err, Some(DnsError::DyndnsTimeWindow));
    assert_eq!(lookup(&mut r, "home.lan").0, ResultCode::NXDOMAIN);
}

#[test]
fn dynamic_update_malformed() {
    let mut r = Resolver::new(IpAddress::V4(0), 300, "s3cr3t".to_string());
    let p = b"kdns 0123456789abcdef0123456789abcdef0123456789abcdef".to_vec();
    let (text, err) = reply_text(r.dyn_dns(&p, "203.0.113.7", NOW));
    assert_eq!(text, "error");
    assert_eq!(err, Some(DnsError::DyndnsMalformed));
    let d = digest(0, "h.lan", "1.2.3.4", "s3cr3t");
    let p = format!("kdns {d} x0 h.lan 1.2.3.4 ").into_bytes();
    let d_ok = format!("{:x}", md5::compute("x0h.lan1.2.3.4s3cr3t"));
    let p_ok = format!("kdns {d_ok} x0 h.lan 1.2.3.4 ").into_bytes();
    assert_eq!(reply_text(r.dyn_dns(&p, "1.1.1.1", NOW)).1, Some(DnsError::DyndnsChecksum));
    assert_eq!(reply_text(r.dyn_dns(&p_ok, "1.1.1.1", NOW)).1, Some(DnsError::DyndnsMalformed));
}

#[test]
fn dynamic_update_bad_source_address() {
    let mut r = Resolver::new(IpAddress::V4(0), 300, "s3cr3t".to_string());
    let id = NOW - C_2023_01_01;
    let d = digest(id, "home.lan", "0.0.0.0", "s3cr3t");
    let p = packet(&d, id, "home.lan", "0.0.0.0");
    let (text, err) = reply_text(r.dyn_dns(&p, "2001:db8::1", NOW));
    assert_eq!(text, "error");
    assert_eq!(err, Some(DnsError::BadAddress));
}

#[test]
fn short_or_foreign_packet_is_dns() {
    let mut r = Resolver::new(IpAddress::V4(0), 300, "s3cr3t".to_string());
    assert!(matches!(r.dyn_dns(b"kdns short", "1.1.1.1", NOW), DyndnsOutcome::NotDyndns));
    let p = vec![b'x'; 60];
    assert!(matches!(r.dyn_dns(&p, "1.1.1.1", NOW), DyndnsOutcome::NotDyndns));
}

#[test]
fn time_window_bounds() {
    let delta = NOW - C_2023_01_01;
    assert!(check_dyndns_time(delta, NOW));
    assert!(check_dyndns_time(delta + 600, NOW));
    assert!(check_dyndns_time(delta - 600, NOW));
    assert!(!check_dyndns_time(delta + 601, NOW));
    assert!(!check_dyndns_time(delta - 601, NOW));
    assert!(!check_dyndns_time(5, 100));
    assert!(check_dyndns_time(0, C_2023_01_01 - 600));
}

#[test]
fn digest_check() {
    let d = digest(12, "a.lan", "1.2.3.4", "key");
    let params: Vec<Vec<u8>> = vec![b"kdns".to_vec(), d.into_bytes(), b"12".to_vec(), b"a.lan".to_vec(), b"1.2.3.4".to_vec()];
    assert!(check_dyndns_md5(&params, "key"));
    assert!(!check_dyndns_md5(&params, "other"));
}

#[test]
fn client_packet_is_accepted() {
    let id = update_id(NOW);
    assert_eq!(id, NOW - C_2023_01_01);
    let p = dyndns_packet(id, "home.lan", "0.0.0.0", "s3cr3t");
    assert_eq!(p, packet(&digest(id, "home.lan", "0.0.0.0", "s3cr3t"), id, "home.lan", "0.0.0.0"));
    let mut r = Resolver::new(IpAddress::V4(0), 300, "s3cr3t".to_string());
    let (text, err) = reply_text(r.dyn_dns(&p, "198.51.100.9", NOW));
    assert_eq!(text, "home.lan 198.51.100.9");
    assert_eq!(err, None);
}

#[test]
fn decimal_digits() {
    let mut out = b"x".to_vec();
    write_decimal(0, &mut out);
    write_decimal(27468800, &mut out);
    write_decimal(u64::MAX, &mut out);
    assert_eq!(out, b"x02746880018446744073709551615".to_vec());
}

#[test]
fn update_host_is_lowercased() {
    let mut r = Resolver::new(IpAddress::V4(0), 300, "k".to_string());
    let id = NOW - C_2023_01_01;
    let p = dyndns_packet(id, "Home.LAN", "10.9.8.7", "k");
    let (text, err) = reply_text(r.dyn_dns(&p, "203.0.113.7", NOW));
    assert_eq!(text, "Home.LAN 10.9.8.7");
    assert_eq!(err, None);
    assert_eq!(lookup(&mut r, "home.lan").1.len(), 1);
}
