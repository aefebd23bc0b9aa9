use minidns::dns::{DnsPacket, DnsQuestion, DnsRecord, QueryType, ResultCode};
use minidns::error::DnsError;
use minidns::resolver::{
    expire_of_unix, Action, IpAddress, PeerAddr, QueryRecord, Resolver, MAX_QUERIES_LEN,
};

const NOW: u64 = 1_700_000_000;

fn client() -> PeerAddr {
    PeerAddr { ip: IpAddress::V4(0xC0000201), port: 5353 }
}

fn query(id: u16, name: &str) -> DnsPacket {
    let mut p = DnsPacket::new();
    p.header.id = id;
    p.header.recursion_desired = true;
    p.questions.push(DnsQuestion::new(name.to_string(), QueryType::A));
    p
}

fn a(domain: &str, addr: u32) -> DnsRecord {
    DnsRecord::A { domain: domain.to_string(), addr, ttl: 60 }
}

fn ns(domain: &str, host: &str) -> DnsRecord {
    DnsRecord::NS { domain: domain.to_string(), host: host.to_string(), ttl: 60 }
}

fn reply(id: u16, code: ResultCode, name: &str) -> DnsPacket {
    let mut p = query(id, name);
    p.header.response = true;
    p.header.rescode = code;
    p
}

fn expect_respond(a: Action) -> (PeerAddr, DnsPacket) {
    match a {
        Action::Respond { to, packet } => (to, packet),
        _ => panic!("expected a response"),
    }
}

fn expect_forward(a: Action) -> (IpAddress, DnsPacket) {
    match a {
        Action::Forward { to, packet } => (to, packet),
        _ => panic!("expected a forward"),
    }
}

const PARENT: u32 = 0xC6290004; // 198.41.0.4

#[test]
fn local_hit() {
    let mut r = Resolver::new(IpAddress::V4(0), 300, String::new());
    r.register_host("example.local", "10.0.0.1").unwrap();
    let (to, p) = expect_respond(r.handle_request(&query(0x1234, "example.local"), client(), NOW).unwrap());
    assert_eq!(to, client());
    assert_eq!(p.header.id, 0x1234);
    assert!(p.header.response);
    assert!(p.header.recursion_available);
    assert_eq!(p.header.rescode, ResultCode::NOERROR);
    assert_eq!(p.questions, vec![DnsQuestion::new("example.local".to_string(), QueryType::A)]);
    assert_eq!(p.answers, vec![DnsRecord::A { domain: "example.local".to_string(), addr: 0x0A000001, ttl: 300 }]);
}

#[test]
fn no_upstream_gives_nxdomain() {
    let mut r = Resolver::new(IpAddress::V4(0), 300, String::new());
    let (_, p) = expect_respond(r.handle_request(&query(7, "nowhere.test"), client(), NOW).unwrap());
    assert_eq!(p.header.rescode, ResultCode::NXDOMAIN);
    assert!(p.answers.is_empty());
    assert!(r.queries.is_empty());
}

#[test]
fn upstream_forward_direct_answer() {
    let mut r = Resolver::new(IpAddress::V4(PARENT), 300, String::new());
    let (to, p) = expect_forward(r.handle_request(&query(0xABCD, "example.com"), client(), NOW).unwrap());
    assert_eq!(to, IpAddress::V4(PARENT));
    assert_eq!(p.header.id, 1);
    assert!(p.header.recursion_desired);
    assert_eq!(p.questions[0].name, "example.com");
    let mut up = reply(1, ResultCode::NOERROR, "example.com");
    up.answers.push(a("example.com", 0x5DB8D822));
    let (to, p) = expect_respond(r.handle_response(&up, NOW).unwrap());
    assert_eq!(to, client());
    assert_eq!(p.header.id, 0xABCD);
    assert_eq!(p.header.rescode, ResultCode::NOERROR);
    assert_eq!(p.answers, vec![a("example.com", 0x5DB8D822)]);
    assert!(r.queries.is_empty());
}

#[test]
fn referral_with_glue() {
    let mut r = Resolver::new(IpAddress::V4(PARENT), 300, String::new());
    expect_forward(r.handle_request(&query(5, "example.com"), client(), NOW).unwrap());
    let mut up = reply(1, ResultCode::NOERROR, "example.com");
    up.authorities.push(ns("example.com", "a.iana-servers.net"));
    up.resources.push(a("a.iana-servers.net", 0xC72B8735));
    let (to, p) = expect_forward(r.handle_response(&up, NOW).unwrap());
    assert_eq!(to, IpAddress::V4(0xC72B8735));
    assert_eq!(p.header.id, 1);
    assert_eq!(p.questions[0].name, "example.com");
    assert_eq!(r.queries.get(&1).unwrap().hops, 1);
    let mut up = reply(1, ResultCode::NOERROR, "example.com");
    up.answers.push(a("example.com", 0x5DB8D822));
    let (_, p) = expect_respond(r.handle_response(&up, NOW).unwrap());
    assert_eq!(p.header.id, 5);
    assert_eq!(p.answers, vec![a("example.com", 0x5DB8D822)]);
}

#[test]
fn referral_without_glue() {
    let mut r = Resolver::new(IpAddress::V4(PARENT), 300, String::new());
    expect_forward(r.handle_request(&query(9, "example.com"), client(), NOW).unwrap());
    let mut up = reply(1, ResultCode::NOERROR, "example.com");
    up.authorities.push(ns("example.com", "ns.nogl.test"));
    let (to, p) = expect_forward(r.handle_response(&up, NOW).unwrap());
    assert_eq!(to, IpAddress::V4(PARENT));
    assert_eq!(p.header.id, 2);
    assert_eq!(p.questions[0].name, "ns.nogl.test");
    assert_eq!(r.queries.get(&2).unwrap().parent_id, 1);
    assert_eq!(r.queries.get(&2).unwrap().hops, 1);
    let mut up = reply(2, ResultCode::NOERROR, "ns.nogl.test");
    up.answers.push(a("ns.nogl.test", 0xC000020A));
    let (to, p) = expect_forward(r.handle_response(&up, NOW).unwrap());
    assert_eq!(to, IpAddress::V4(0xC000020A));
    assert_eq!(p.header.id, 1);
    assert_eq!(p.questions[0].name, "example.com");
    let mut up = reply(1, ResultCode::NOERROR, "example.com");
    up.answers.push(a("example.com", 0x5DB8D822));
    let (to, p) = expect_respond(r.handle_response(&up, NOW).unwrap());
    assert_eq!(to, client());
    assert_eq!(p.header.id, 9);
    assert_eq!(p.answers, vec![a("example.com", 0x5DB8D822)]);
    assert!(r.queries.is_empty());
}

#[test]
fn nxdomain_walks_up_the_chain() {
    let mut r = Resolver::new(IpAddress::V4(PARENT), 300, String::new());
    expect_forward(r.handle_request(&query(0x4242, "example.com"), client(), NOW).unwrap());
    let mut up = reply(1, ResultCode::NOERROR, "example.com");
    up.authorities.push(ns("example.com", "ns.nogl.test"));
    expect_forward(r.handle_response(&up, NOW).unwrap());
    let up = reply(2, ResultCode::NXDOMAIN, "ns.nogl.test");
    let (to, p) = expect_respond(r.handle_response(&up, NOW).unwrap());
    assert_eq!(to, client());
    assert_eq!(p.header.id, 0x4242);
    assert_eq!(p.header.rescode, ResultCode::NXDOMAIN);
    assert!(r.queries.is_empty());
}

#[test]
fn helper_answer_that_is_not_an_address_ends_chain() {
    let mut r = Resolver::new(IpAddress::V4(PARENT), 300, String::new());
    expect_forward(r.handle_request(&query(1, "example.com"), client(), NOW).unwrap());
    let mut up = reply(1, ResultCode::NOERROR, "example.com");
    up.authorities.push(ns("example.com", "ns.nogl.test"));
    expect_forward(r.handle_response(&up, NOW).unwrap());
    let mut up = reply(2, ResultCode::NOERROR, "ns.nogl.test");
    up.answers.push(DnsRecord::CNAME { domain: "ns.nogl.test".to_string(), host: "x.test".to_string(), ttl: 1 });
    assert_eq!(r.handle_response(&up, NOW).err(), Some(DnsError::NonIPv4Glue));
    assert!(r.queries.is_empty());
}

#[test]
fn missing_parent_is_reported() {
    let mut r = Resolver::new(IpAddress::V4(PARENT), 300, String::new());
    expect_forward(r.handle_request(&query(1, "example.com"), client(), NOW).unwrap());
    let mut up = reply(1, ResultCode::NOERROR, "example.com");
    up.authorities.push(ns("example.com", "ns.nogl.test"));
    expect_forward(r.handle_response(&up, NOW).unwrap());
    r.queries.remove(&1);
    let mut up = reply(2, ResultCode::NOERROR, "ns.nogl.test");
    up.answers.push(a("ns.nogl.test", 1));
    assert_eq!(r.handle_response(&up, NOW).err(), Some(DnsError::ParentChainMissing));
}

#[test]
fn unknown_response_id_is_dropped() {
    let mut r = Resolver::new(IpAddress::V4(PARENT), 300, String::new());
    assert!(matches!(r.handle_response(&reply(77, ResultCode::NOERROR, "x"), NOW), Ok(Action::Nothing)));
}

#[test]
fn referral_with_nothing_usable_is_refused() {
    let mut r = Resolver::new(IpAddress::V4(PARENT), 300, String::new());
    expect_forward(r.handle_request(&query(3, "example.com"), client(), NOW).unwrap());
    let up = reply(1, ResultCode::SERVFAIL, "example.com");
    let (_, p) = expect_respond(r.handle_response(&up, NOW).unwrap());
    assert_eq!(p.header.rescode, ResultCode::REFUSED);
    assert_eq!(p.header.id, 3);
}

#[test]
fn hop_cap_refuses() {
    let mut r = Resolver::new(IpAddress::V4(PARENT), 300, String::new());
    expect_forward(r.handle_request(&query(3, "example.com"), client(), NOW).unwrap());
    let mut sends = 1;
    loop {
        let mut up = reply(1, ResultCode::NOERROR, "example.com");
        up.authorities.push(ns("com", "a.gtld"));
        up.resources.push(a("a.gtld", 0x01020304));
        match r.handle_response(&up, NOW).unwrap() {
            Action::Forward { .. } => sends += 1,
            Action::Respond { packet, .. } => {
                assert_eq!(packet.header.rescode, ResultCode::REFUSED);
                break;
            }
            Action::Nothing => panic!("chain lost"),
        }
    }
    assert_eq!(sends, 12);
}

#[test]
fn pending_table_cap() {
    let mut r = Resolver::new(IpAddress::V4(PARENT), 300, String::new());
    for i in 0..MAX_QUERIES_LEN {
        expect_forward(r.handle_request(&query(i as u16, "example.com"), client(), NOW).unwrap());
    }
    assert_eq!(r.queries.len(), MAX_QUERIES_LEN);
    let (_, p) = expect_respond(r.handle_request(&query(1, "example.com"), client(), NOW).unwrap());
    assert_eq!(p.header.rescode, ResultCode::REFUSED);
    assert_eq!(r.queries.len(), MAX_QUERIES_LEN);
}

#[test]
fn request_without_question() {
    let mut r = Resolver::new(IpAddress::V4(PARENT), 300, String::new());
    let p = DnsPacket::new();
    assert_eq!(r.handle_request(&p, client(), NOW).err(), Some(DnsError::NoQuestion));
}

#[test]
fn expiry_sweep() {
    let mut r = Resolver::new(IpAddress::V4(PARENT), 300, String::new());
    expect_forward(r.handle_request(&query(1, "old.test"), client(), NOW).unwrap());
    expect_forward(r.handle_request(&query(2, "new.test"), client(), NOW + 5).unwrap());
    assert_eq!(r.queries.get(&1).unwrap().expire_at, NOW + 10);
    assert_eq!(r.tick(NOW + 11, NOW + 20), NOW + 20);
    assert_eq!(r.queries.len(), 2);
    assert_eq!(r.tick(NOW + 11, NOW + 10), NOW + 21);
    assert_eq!(r.queries.len(), 1);
    assert!(r.queries.contains_key(&2));
    r.clear_queries_of_timeout(NOW + 16);
    assert!(r.queries.is_empty());
}

#[test]
fn upstream_ids_skip_zero() {
    let mut r = Resolver::new(IpAddress::V4(PARENT), 300, String::new());
    r.curr_req_id = 0xFFFE;
    assert_eq!(r.next_req_id(), 0xFFFF);
    assert_eq!(r.next_req_id(), 1);
    assert_eq!(expire_of_unix(5), 15);
    assert_eq!(expire_of_unix(u64::MAX - 3), u64::MAX);
}

#[test]
fn collision_replaces_pending_record() {
    let mut r = Resolver::new(IpAddress::V4(PARENT), 300, String::new());
    r.curr_req_id = 0;
    let rec = |id: u16| QueryRecord {
        client_id: id,
        client_addr: client(),
        question: DnsQuestion::new("a.test".to_string(), QueryType::A),
        parent_id: 0,
        expire_at: NOW,
        hops: 0,
    };
    expect_forward(r.handle_query(rec(10)));
    r.curr_req_id = 0;
    expect_forward(r.handle_query(rec(20)));
    assert_eq!(r.queries.len(), 1);
    assert_eq!(r.queries.get(&1).unwrap().client_id, 20);
}

#[test]
fn local_lookup_and_bad_address() {
    let mut r = Resolver::new(IpAddress::V4(0), 42, String::new());
    assert_eq!(r.register_host("h", "1.2.3"), Err(DnsError::BadAddress));
    assert_eq!(r.register_host("h", "01.2.3.4"), Err(DnsError::BadAddress));
    r.register_host("h", "1.2.3.4").unwrap();
    r.register_host("h", "5.6.7.8").unwrap();
    assert_eq!(r.local_lookup(&"h".to_string()), Some(DnsRecord::A { domain: "h".to_string(), addr: 0x05060708, ttl: 42 }));
    assert_eq!(r.local_lookup(&"H".to_string()), None);
}

#[test]
fn registered_names_are_lowercased() {
    let mut r = Resolver::new(IpAddress::V4(0), 60, String::new());
    r.register_host("Example.LOCAL", "10.0.0.9").unwrap();
    let (_, p) = expect_respond(r.handle_request(&query(1, "example.local"), client(), NOW).unwrap());
    assert_eq!(p.header.rescode, ResultCode::NOERROR);
    assert_eq!(p.answers, vec![DnsRecord::A { domain: "example.local".to_string(), addr: 0x0A000009, ttl: 60 }]);
    assert_eq!(r.local_lookup(&"Example.LOCAL".to_string()), None);
}
