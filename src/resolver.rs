use std::collections::HashMap;
use vstd::prelude::*;
use vstd::string::StringSliceAdditionalSpecFns;

use crate::dns::{
    empty_header, resolved_ns, unresolved_ns, DnsHeader, DnsPacket, DnsQuestion, DnsRecord,
    PacketView, QueryType, QuestionView, RecordView, ResultCode, records_view,
};
use crate::error::DnsError;
use crate::hosts::HostTable;
use crate::parse::{ipv4_of, parse_ipv4};
use crate::text::{lower_text, lowercase};

verus! {

broadcast use vstd::std_specs::hash::group_hash_axioms;

/// Seconds a pending query may wait for its upstream answer.
pub const QUERY_TIMEOUT: u64 = 10;

/// Seconds between two sweeps of the pending table.
pub const CLEAR_QUERIES_INTERVAL: u64 = 10;

/// Upstream round trips a chain may spend before it is refused.
pub const MAX_FORWARD_COUNT: u8 = 10;

/// Largest number of pending queries.
pub const MAX_QUERIES_LEN: usize = 4096;

/// An IP address.
#[derive(Debug, Clone, Copy, PartialEq, Eq, Structural)]
pub enum IpAddress {
    V4(u32),
    V6(u128),
}

/// An address and port a datagram came from or goes to.
#[derive(Debug, Clone, Copy, PartialEq, Eq, Structural)]
pub struct PeerAddr {
    pub ip: IpAddress,
    pub port: u16,
}

/// A query waiting for an upstream answer.
pub struct QueryRecord {
    /// Id of the client's request, echoed in the answer.
    pub client_id: u16,
    /// Where the answer goes.
    pub client_addr: PeerAddr,
    pub question: DnsQuestion,
    /// Upstream id of the query this one helps resolve; 0 for none.
    pub parent_id: u16,
    /// Unix time after which the query is dropped.
    pub expire_at: u64,
    /// Upstream round trips spent on this chain so far.
    pub hops: u8,
}

/// What the event loop is to send after a decision.
pub enum Action {
    /// Nothing to send.
    Nothing,
    /// An answer to a client.
    Respond { to: PeerAddr, packet: DnsPacket },
    /// A question to a name server, on port 53.
    Forward { to: IpAddress, packet: DnsPacket },
}

/// The deadline of a query created at `now`.
pub open spec fn expiry(now: u64) -> u64 {
    if now > u64::MAX - QUERY_TIMEOUT {
        u64::MAX
    } else {
        (now + QUERY_TIMEOUT) as u64
    }
}

pub fn expire_of_unix(now: u64) -> (r: u64)
    ensures
        r == expiry(now),
{
    if now > u64::MAX - QUERY_TIMEOUT {
        u64::MAX
    } else {
        now + QUERY_TIMEOUT
    }
}

/// A question sent upstream under `id`.
pub open spec fn request_view(id: u16, q: QuestionView) -> PacketView {
    PacketView {
        header: DnsHeader { id, questions: 1, recursion_desired: true, ..empty_header() },
        questions: seq![q],
        answers: Seq::empty(),
        authorities: Seq::empty(),
        resources: Seq::empty(),
    }
}

/// The answer to a client whose request had id `client_id`.
pub open spec fn response_view(
    code: ResultCode,
    client_id: u16,
    q: QuestionView,
    answers: Seq<RecordView>,
) -> PacketView {
    PacketView {
        header: DnsHeader {
            id: client_id,
            rescode: code,
            recursion_desired: true,
            recursion_available: true,
            response: true,
            ..empty_header()
        },
        questions: seq![q],
        answers,
        authorities: Seq::empty(),
        resources: Seq::empty(),
    }
}

/// The answer to the client of `q`.
pub open spec fn responds(
    a: Action,
    code: ResultCode,
    q: QueryRecord,
    answers: Seq<RecordView>,
) -> bool {
    match a {
        Action::Respond { to, packet } => to == q.client_addr && packet@ == response_view(
            code,
            q.client_id,
            q.question@,
            answers,
        ),
        _ => false,
    }
}

/// `q` sent to `to` under upstream id `id`.
pub open spec fn forwards(a: Action, to: IpAddress, id: u16, q: QuestionView) -> bool {
    match a {
        Action::Forward { to: t, packet } => t == to && packet@ == request_view(id, q),
        _ => false,
    }
}

/// Following parent links from `id`, removing each record met, up to the
/// record with no parent; that record, or none if a link is missing, and
/// what is left of the table.
pub open spec fn walk_up(m: Map<u16, QueryRecord>, id: u16) -> (Option<QueryRecord>, Map<
    u16,
    QueryRecord,
>)
    decreases m.len(),
{
    if !m.dom().finite() || !m.contains_key(id) {
        (None, m)
    } else {
        let x = m[id];
        let rest = m.remove(id);
        if x.parent_id != 0 {
            walk_up(rest, x.parent_id)
        } else {
            (Some(x), rest)
        }
    }
}

/// The upstream id that follows `cur`; 0 is skipped, as it marks a query
/// with no parent.
pub open spec fn next_id(cur: u16) -> u16 {
    if cur == 0xFFFF {
        1
    } else {
        (cur + 1) as u16
    }
}

/// The record of a query sent to resolve the name server `ns` on behalf of
/// the query under `parent`.
pub open spec fn helper_query(
    ns: Seq<char>,
    parent: u16,
    hops: u8,
    now: u64,
    r: QueryRecord,
) -> bool {
    &&& r.client_id == 0
    &&& r.client_addr == PeerAddr { ip: IpAddress::V4(0), port: 0 }
    &&& r.question@ == QuestionView { name: ns, qtype: QueryType::A }
    &&& r.parent_id == parent
    &&& r.expire_at == expiry(now)
    &&& r.hops == hops + 1
}

/// What handling the client query `q` does: an answer from the host table,
/// NXDOMAIN when no upstream server is set, the question sent upstream under
/// a fresh id when the pending table has room, REFUSED when it has none.
pub open spec fn query_outcome(pre: Resolver, post: Resolver, q: QueryRecord, r: Action) -> bool {
    &&& post.key == pre.key
    &&& match pre.hosts.get(q.question.name@) {
        Some(addr) => {
            &&& responds(
                r,
                ResultCode::NOERROR,
                q,
                seq![
                    RecordView::A {
                        domain: q.question.name@,
                        addr,
                        ttl: pre.ttl,
                    },
                ],
            )
            &&& post.queries@ == pre.queries@
            &&& post.curr_req_id == pre.curr_req_id
        },
        None => if pre.up_dns_addr == IpAddress::V4(0) {
            &&& responds(r, ResultCode::NXDOMAIN, q, Seq::empty())
            &&& post.queries@ == pre.queries@
            &&& post.curr_req_id == pre.curr_req_id
        } else if pre.queries@.len() < MAX_QUERIES_LEN {
            let id = next_id(pre.curr_req_id);
            &&& post.curr_req_id == id
            &&& post.queries@ == pre.queries@.insert(id, q)
            &&& forwards(r, pre.up_dns_addr, id, q.question@)
        } else {
            &&& responds(r, ResultCode::REFUSED, q, Seq::empty())
            &&& post.queries@ == pre.queries@
            &&& post.curr_req_id == pre.curr_req_id
        },
    }
}

/// What handling the upstream answer `resp` does, per the pending query it
/// answers (taken out of the table):
/// - an answer with records for a client query goes to the client;
/// - an A answer for a helper query sends the parent's question to that
///   address under the parent's id; another answer ends the chain;
/// - NXDOMAIN goes to the client at the root of the chain, whose records
///   are removed;
/// - otherwise, after `MAX_FORWARD_COUNT` round trips the client is refused;
///   a referral with an address sends the question there again, one hop
///   more; a referral without one starts a helper query for the name
///   server's address; anything else is refused.
pub open spec fn response_outcome(
    pre: Resolver,
    post: Resolver,
    resp: PacketView,
    now: u64,
    r: Result<Action, DnsError>,
) -> bool {
    let m = pre.queries@;
    let id = resp.header.id;
    let ans = resp.answers;
    let code = resp.header.rescode;
    if !m.contains_key(id) {
        r == Ok::<Action, DnsError>(Action::Nothing) && post.queries@ == m && post.curr_req_id
            == pre.curr_req_id
    } else {
        let q = m[id];
        let m1 = m.remove(id);
        if code == ResultCode::NOERROR && ans.len() > 0 {
            if q.parent_id == 0 {
                r is Ok && responds(r->Ok_0, ResultCode::NOERROR, q, ans) && post.queries@ == m1 && post.curr_req_id == pre.curr_req_id
            } else if !m1.contains_key(q.parent_id) {
                r == Err::<Action, DnsError>(DnsError::ParentChainMissing) && post.queries@ == m1 && post.curr_req_id == pre.curr_req_id
            } else {
                match ans[0] {
                    RecordView::A { addr, .. } => r is Ok && forwards(
                        r->Ok_0,
                        IpAddress::V4(addr),
                        q.parent_id,
                        m1[q.parent_id].question@,
                    ) && post.queries@ == m1 && post.curr_req_id == pre.curr_req_id,
                    _ => r == Err::<Action, DnsError>(DnsError::NonIPv4Glue) && post.queries@
                        == walk_up(m1, q.parent_id).1 && post.curr_req_id == pre.curr_req_id,
                }
            }
        } else if code == ResultCode::NXDOMAIN {
            if q.parent_id == 0 {
                r is Ok && responds(r->Ok_0, ResultCode::NXDOMAIN, q, ans) && post.queries@ == m1 && post.curr_req_id == pre.curr_req_id
            } else {
                match walk_up(m1, q.parent_id) {
                    (Some(top), m2) => r is Ok && responds(r->Ok_0, ResultCode::NXDOMAIN, top, ans)
                        && post.queries@ == m2 && post.curr_req_id == pre.curr_req_id,
                    (None, m2) => r == Err::<Action, DnsError>(DnsError::ParentChainMissing)
                        && post.queries@ == m2 && post.curr_req_id == pre.curr_req_id,
                }
            }
        } else if q.hops > MAX_FORWARD_COUNT {
            r is Ok && responds(r->Ok_0, ResultCode::REFUSED, q, Seq::empty()) && post.queries@ == m1 && post.curr_req_id == pre.curr_req_id
        } else {
            match resolved_ns(resp.authorities, resp.resources, q.question.name@) {
                Some(ip) => r is Ok && forwards(r->Ok_0, IpAddress::V4(ip), id, q.question@)
                    && post.queries@ == m1.insert(id, QueryRecord { hops: (q.hops + 1) as u8, ..q })
                    && post.curr_req_id == pre.curr_req_id,
                None => match unresolved_ns(resp.authorities, q.question.name@) {
                    Some(ns) => if m1.len() + 2 > MAX_QUERIES_LEN {
                        r is Ok && responds(r->Ok_0, ResultCode::REFUSED, q, Seq::empty())
                            && post.queries@ == m1 && post.curr_req_id == pre.curr_req_id
                    } else {
                        let nid = next_id(pre.curr_req_id);
                        &&& post.curr_req_id == nid
                        &&& post.queries@.contains_key(nid)
                        &&& helper_query(ns, id, q.hops, now, post.queries@[nid])
                        &&& post.queries@ == m1.insert(id, q).insert(nid, post.queries@[nid])
                        &&& r is Ok
                        &&& forwards(r->Ok_0, pre.up_dns_addr, nid, post.queries@[nid].question@)
                    },
                    None => r is Ok && responds(r->Ok_0, ResultCode::REFUSED, q, Seq::empty())
                        && post.queries@ == m1 && post.curr_req_id == pre.curr_req_id,
                },
            }
        }
    }
}

proof fn lemma_walk_up_shrinks(m: Map<u16, QueryRecord>, id: u16)
    requires
        m.dom().finite(),
    ensures
        walk_up(m, id).1.dom().finite(),
        walk_up(m, id).1.len() <= m.len(),
        forall|k: u16| #[trigger] walk_up(m, id).1.contains_key(k) ==> m.contains_key(k),
        forall|k: u16| #[trigger] walk_up(m, id).1.contains_key(k) ==> walk_up(m, id).1[k] == m[k],
    decreases m.len(),
{
    if m.contains_key(id) {
        let x = m[id];
        let rest = m.remove(id);
        if x.parent_id != 0 {
            lemma_walk_up_shrinks(rest, x.parent_id);
        }
    }
}

/// Hop cap: whatever an upstream answer does, every record it puts into the
/// pending table, new or changed, has spent at most `MAX_FORWARD_COUNT + 1`
/// round trips; a query is sent out again only while it has spent at most
/// `MAX_FORWARD_COUNT`, and a chain is refused once it has spent more.
pub proof fn lemma_hop_cap(
    pre: Resolver,
    post: Resolver,
    resp: PacketView,
    now: u64,
    r: Result<Action, DnsError>,
)
    requires
        pre.wf(),
        response_outcome(pre, post, resp, now, r),
    ensures
        forall|k: u16|
            #[trigger] post.queries@.contains_key(k) && !(pre.queries@.contains_key(k)
                && post.queries@[k] == pre.queries@[k]) ==> post.queries@[k].hops
                <= MAX_FORWARD_COUNT + 1,
{
    let m = pre.queries@;
    let id = resp.header.id;
    if m.contains_key(id) {
        let q = m[id];
        let m1 = m.remove(id);
        if q.parent_id != 0 {
            lemma_walk_up_shrinks(m1, q.parent_id);
        }
    }
}

/// The resolver's state: pending upstream queries, the host table and its
/// settings.
pub struct Resolver {
    pub queries: HashMap<u16, QueryRecord>,
    pub curr_req_id: u16,
    pub up_dns_addr: IpAddress,
    pub ttl: u32,
    pub hosts: HostTable,
    pub key: String,
}

fn copy_records(v: &Vec<DnsRecord>) -> (r: Vec<DnsRecord>)
    ensures
        r@ == v@,
{
    let mut out: Vec<DnsRecord> = Vec::new();
    let mut i: usize = 0;
    while i < v.len()
        invariant
            0 <= i <= v@.len(),
            out@ == v@.take(i as int),
        decreases v@.len() - i,
    {
        out.push(v[i].duplicate());
        proof {
            assert(out@ =~= v@.take(i + 1));
        }
        i = i + 1;
    }
    proof {
        assert(v@.take(v@.len() as int) =~= v@);
    }
    out
}

fn request(id: u16, q: &DnsQuestion) -> (r: DnsPacket)
    ensures
        r@ == request_view(id, q@),
{
    let mut packet = DnsPacket::new();
    packet.header.id = id;
    packet.header.questions = 1;
    packet.header.recursion_desired = true;
    packet.questions.push(q.duplicate());
    proof {
        assert(packet@.questions =~= seq![q@]);
        assert(packet@.answers =~= Seq::<RecordView>::empty());
        assert(packet@.authorities =~= Seq::<RecordView>::empty());
        assert(packet@.resources =~= Seq::<RecordView>::empty());
    }
    packet
}

fn response(code: ResultCode, q: &QueryRecord, answers: Vec<DnsRecord>) -> (r: Action)
    ensures
        responds(r, code, *q, records_view(answers@)),
{
    let mut packet = DnsPacket::new();
    packet.header.id = q.client_id;
    packet.header.rescode = code;
    packet.header.recursion_desired = true;
    packet.header.recursion_available = true;
    packet.header.response = true;
    packet.questions.push(q.question.duplicate());
    packet.answers = answers;
    proof {
        assert(packet@.questions =~= seq![q.question@]);
        assert(packet@.authorities =~= Seq::<RecordView>::empty());
        assert(packet@.resources =~= Seq::<RecordView>::empty());
    }
    Action::Respond { to: q.client_addr, packet }
}

impl Resolver {
    /// Pending ids are never 0, and there are at most `MAX_QUERIES_LEN` of them.
    pub open spec fn wf(&self) -> bool {
        &&& self.queries@.len() <= MAX_QUERIES_LEN
        &&& !self.queries@.contains_key(0)
    }

    pub fn new(up_dns_addr: IpAddress, ttl: u32, key: String) -> (r: Resolver)
        ensures
            r.wf(),
            r.queries@ == Map::<u16, QueryRecord>::empty(),
            r.curr_req_id == 0,
            r.up_dns_addr == up_dns_addr,
            r.ttl == ttl,
            r.key == key,
            forall|n: Seq<char>| r.hosts.get(n) is None,
    {
        Resolver {
            queries: HashMap::new(),
            curr_req_id: 0,
            up_dns_addr,
            ttl,
            hosts: HostTable::new(),
            key,
        }
    }

    /// Binds `host`, lowercased, to the IPv4 address written in `ip`.
    pub fn register_host(&mut self, host: &str, ip: &str) -> (r: Result<(), DnsError>)
        ensures
            final(self).queries == old(self).queries,
            final(self).curr_req_id == old(self).curr_req_id,
            final(self).up_dns_addr == old(self).up_dns_addr,
            final(self).ttl == old(self).ttl,
            final(self).key == old(self).key,
            r is Ok <==> ipv4_of(ip.spec_bytes()) is Some,
            r is Err ==> r == Err::<(), DnsError>(DnsError::BadAddress) && final(self).hosts
                == old(self).hosts,
            r is Ok ==> forall|n: Seq<char>|
                #[trigger] final(self).hosts.get(n) == if n == lower_text(host@) {
                    ipv4_of(ip.spec_bytes())
                } else {
                    old(self).hosts.get(n)
                },
    {
        match parse_ipv4(ip.as_bytes()) {
            Some(addr) => {
                self.hosts.register(lowercase(host), addr);
                Ok(())
            },
            None => Err(DnsError::BadAddress),
        }
    }

    /// The A record the host table gives for `qname`.
    pub fn local_lookup(&self, qname: &String) -> (r: Option<DnsRecord>)
        ensures
            match self.hosts.get(qname@) {
                Some(addr) => r is Some && r->Some_0@ == (RecordView::A {
                    domain: qname@,
                    addr,
                    ttl: self.ttl,
                }),
                None => r is None,
            },
    {
        match self.hosts.lookup(qname) {
            Some(addr) => Some(DnsRecord::A { domain: qname.clone(), addr, ttl: self.ttl }),
            None => None,
        }
    }

    /// Allocates the next upstream id.
    pub fn next_req_id(&mut self) -> (r: u16)
        ensures
            r == next_id(old(self).curr_req_id),
            r != 0,
            final(self).curr_req_id == r,
            final(self).queries == old(self).queries,
            final(self).up_dns_addr == old(self).up_dns_addr,
            final(self).ttl == old(self).ttl,
            final(self).hosts == old(self).hosts,
            final(self).key == old(self).key,
    {
        self.curr_req_id = if self.curr_req_id == 0xFFFF {
            1
        } else {
            self.curr_req_id + 1
        };
        self.curr_req_id
    }

    /// Answers from the host table, or with NXDOMAIN when there is no
    /// upstream server, or sends the question upstream when the pending
    /// table has room, or refuses.
    pub fn handle_query(&mut self, query: QueryRecord) -> (r: Action)
        requires
            old(self).wf(),
        ensures
            final(self).wf(),
            final(self).up_dns_addr == old(self).up_dns_addr,
            final(self).ttl == old(self).ttl,
            final(self).hosts == old(self).hosts,
            query_outcome(*old(self), *final(self), query, r),
    {
        match self.local_lookup(&query.question.name) {
            Some(rec) => {
                let mut answers: Vec<DnsRecord> = Vec::new();
                answers.push(rec);
                proof {
                    assert(records_view(answers@) =~= seq![answers@[0]@]);
                }
                return response(ResultCode::NOERROR, &query, answers);
            },
            None => {},
        }
        if self.up_dns_addr == IpAddress::V4(0) {
            let r = response(ResultCode::NXDOMAIN, &query, Vec::new());
            proof {
                assert(records_view(Seq::<DnsRecord>::empty()) =~= Seq::<RecordView>::empty());
            }
            return r;
        }
        if self.queries.len() < MAX_QUERIES_LEN {
            let req_id = self.next_req_id();
            let packet = request(req_id, &query.question);
            self.queries.insert(req_id, query);
            Action::Forward { to: self.up_dns_addr, packet }
        } else {
            let r = response(ResultCode::REFUSED, &query, Vec::new());
            proof {
                assert(records_view(Seq::<DnsRecord>::empty()) =~= Seq::<RecordView>::empty());
            }
            r
        }
    }

    /// Removes the record under `id` and, following parent links, every
    /// record up to the one with no parent, which is returned.
    pub fn remove_recursive_query(&mut self, id: u16) -> (r: Option<QueryRecord>)
        ensures
            (r, final(self).queries@) == walk_up(old(self).queries@, id),
            final(self).curr_req_id == old(self).curr_req_id,
            final(self).up_dns_addr == old(self).up_dns_addr,
            final(self).ttl == old(self).ttl,
            final(self).hosts == old(self).hosts,
            final(self).key == old(self).key,
    {
        let mut tmp_id = id;
        loop
            invariant
                walk_up(old(self).queries@, id) == walk_up(self.queries@, tmp_id),
                self.curr_req_id == old(self).curr_req_id,
                self.up_dns_addr == old(self).up_dns_addr,
                self.ttl == old(self).ttl,
                self.hosts == old(self).hosts,
                self.key == old(self).key,
            decreases self.queries@.len(),
        {
            let ghost m = self.queries@;
            proof {
                assert(m.dom().finite());
            }
            match self.queries.remove(&tmp_id) {
                Some(x) => {
                    if x.parent_id > 0 {
                        tmp_id = x.parent_id;
                    } else {
                        return Some(x);
                    }
                },
                None => {
                    return None;
                },
            }
        }
    }

    /// Removes every pending query whose deadline is before `now`.
    pub fn clear_queries_of_timeout(&mut self, now: u64)
        requires
            old(self).wf(),
        ensures
            final(self).wf(),
            forall|k: u16| #[trigger]
                final(self).queries@.contains_key(k) <==> old(self).queries@.contains_key(k)
                    && old(self).queries@[k].expire_at >= now,
            forall|k: u16| #[trigger]
                final(self).queries@.contains_key(k) ==> final(self).queries@[k] == old(
                    self,
                ).queries@[k],
            final(self).curr_req_id == old(self).curr_req_id,
            final(self).up_dns_addr == old(self).up_dns_addr,
            final(self).ttl == old(self).ttl,
            final(self).hosts == old(self).hosts,
            final(self).key == old(self).key,
    {
        let mut k: u32 = 0;
        while k < 0x10000
            invariant
                k <= 0x10000,
                self.wf(),
                forall|j: u16| #[trigger]
                    self.queries@.contains_key(j) <==> if (j as u32) < k {
                        old(self).queries@.contains_key(j) && old(self).queries@[j].expire_at >= now
                    } else {
                        old(self).queries@.contains_key(j)
                    },
                forall|j: u16| #[trigger]
                    self.queries@.contains_key(j) ==> self.queries@[j] == old(self).queries@[j],
                self.curr_req_id == old(self).curr_req_id,
                self.up_dns_addr == old(self).up_dns_addr,
                self.ttl == old(self).ttl,
                self.hosts == old(self).hosts,
                self.key == old(self).key,
            decreases 0x10000 - k,
        {
            let key = k as u16;
            let expired = match self.queries.get(&key) {
                Some(q) => q.expire_at < now,
                None => false,
            };
            if expired {
                self.queries.remove(&key);
            }
            k = k + 1;
        }
    }

    /// One periodic step: when `now` has reached `next_sweep`, removes the
    /// queries whose deadline has passed and returns the time of the next
    /// sweep; otherwise returns `next_sweep`.
    ///
    /// Expiry: while every pending query's deadline is at most one sweep
    /// interval before the next sweep (as it is for a query made after the
    /// last sweep), no query outlives a tick by more than one interval past
    /// its deadline, and that holds again of the sweep returned.
    pub fn tick(&mut self, now: u64, next_sweep: u64) -> (r: u64)
        requires
            old(self).wf(),
        ensures
            final(self).wf(),
            now >= next_sweep ==> {
                &&& forall|k: u16| #[trigger]
                    final(self).queries@.contains_key(k) <==> old(self).queries@.contains_key(k)
                        && old(self).queries@[k].expire_at >= now
                &&& r == if now > u64::MAX - CLEAR_QUERIES_INTERVAL {
                    u64::MAX
                } else {
                    (now + CLEAR_QUERIES_INTERVAL) as u64
                }
            },
            now < next_sweep ==> final(self).queries@ == old(self).queries@ && r == next_sweep,
            forall|k: u16| #[trigger]
                final(self).queries@.contains_key(k) ==> final(self).queries@[k] == old(
                    self,
                ).queries@[k],
            (forall|k: u16| #[trigger]
                old(self).queries@.contains_key(k) ==> old(self).queries@[k].expire_at
                    + CLEAR_QUERIES_INTERVAL >= next_sweep) ==> forall|k: u16| #[trigger]
                final(self).queries@.contains_key(k) ==> final(self).queries@[k].expire_at
                    + CLEAR_QUERIES_INTERVAL >= now && final(self).queries@[k].expire_at
                    + CLEAR_QUERIES_INTERVAL >= r,
    {
        if now >= next_sweep {
            self.clear_queries_of_timeout(now);
            if now > u64::MAX - CLEAR_QUERIES_INTERVAL {
                u64::MAX
            } else {
                now + CLEAR_QUERIES_INTERVAL
            }
        } else {
            next_sweep
        }
    }

    /// Acts on an answer from upstream; see `response_outcome`.
    pub fn handle_response(&mut self, resp: &DnsPacket, now: u64) -> (r: Result<Action, DnsError>)
        requires
            old(self).wf(),
        ensures
            final(self).wf(),
            response_outcome(*old(self), *final(self), resp@, now, r),
            final(self).up_dns_addr == old(self).up_dns_addr,
            final(self).ttl == old(self).ttl,
            final(self).hosts == old(self).hosts,
            final(self).key == old(self).key,
    {
        let id = resp.header.id;
        let ghost m = self.queries@;
        let query = match self.queries.remove(&id) {
            Some(q) => q,
            None => {
                proof {
                    assert(self.queries@ =~= m);
                }
                return Ok(Action::Nothing);
            },
        };
        let ghost m1 = self.queries@;
        proof {
            assert(m.contains_key(id) && m[id] == query && m1 == m.remove(id));
            assert(m1.len() < m.len());
        }
        if resp.answers.len() > 0 && resp.header.rescode == ResultCode::NOERROR {
            if query.parent_id == 0 {
                let answers = copy_records(&resp.answers);
                return Ok(response(ResultCode::NOERROR, &query, answers));
            }
            let up_question = match self.queries.get(&query.parent_id) {
                Some(up) => up.question.duplicate(),
                None => {
                    return Err(DnsError::ParentChainMissing);
                },
            };
            match &resp.answers[0] {
                DnsRecord::A { addr, .. } => {
                    let packet = request(query.parent_id, &up_question);
                    return Ok(Action::Forward { to: IpAddress::V4(*addr), packet });
                },
                _ => {
                    proof {
                        lemma_walk_up_shrinks(m1, query.parent_id);
                    }
                    self.remove_recursive_query(query.parent_id);
                    return Err(DnsError::NonIPv4Glue);
                },
            }
        }
        if resp.header.rescode == ResultCode::NXDOMAIN {
            let answers = copy_records(&resp.answers);
            if query.parent_id == 0 {
                return Ok(response(ResultCode::NXDOMAIN, &query, answers));
            }
            proof {
                lemma_walk_up_shrinks(m1, query.parent_id);
            }
            match self.remove_recursive_query(query.parent_id) {
                Some(top) => {
                    return Ok(response(ResultCode::NXDOMAIN, &top, answers));
                },
                None => {
                    return Err(DnsError::ParentChainMissing);
                },
            }
        }
        if query.hops > MAX_FORWARD_COUNT {
            let r = response(ResultCode::REFUSED, &query, Vec::new());
            proof {
                assert(records_view(Seq::<DnsRecord>::empty()) =~= Seq::<RecordView>::empty());
            }
            return Ok(r);
        }
        match resp.get_resolved_ns(query.question.name.as_str()) {
            Some(ip) => {
                let packet = request(id, &query.question);
                let mut query = query;
                query.hops = query.hops + 1;
                self.queries.insert(id, query);
                return Ok(Action::Forward { to: IpAddress::V4(ip), packet });
            },
            None => {},
        }
        let ns = match resp.get_unresolved_ns(query.question.name.as_str()) {
            Some(ns) => ns,
            None => {
                let r = response(ResultCode::REFUSED, &query, Vec::new());
                proof {
                    assert(records_view(Seq::<DnsRecord>::empty()) =~= Seq::<RecordView>::empty());
                }
                return Ok(r);
            },
        };
        if self.queries.len() + 2 > MAX_QUERIES_LEN {
            let r = response(ResultCode::REFUSED, &query, Vec::new());
            proof {
                assert(records_view(Seq::<DnsRecord>::empty()) =~= Seq::<RecordView>::empty());
            }
            return Ok(r);
        }
        let child = QueryRecord {
            client_id: 0,
            client_addr: PeerAddr { ip: IpAddress::V4(0), port: 0 },
            question: DnsQuestion { name: ns, qtype: QueryType::A },
            parent_id: id,
            expire_at: expire_of_unix(now),
            hops: query.hops + 1,
        };
        let new_id = self.next_req_id();
        let packet = request(new_id, &child.question);
        self.queries.insert(id, query);
        self.queries.insert(new_id, child);
        Ok(Action::Forward { to: self.up_dns_addr, packet })
    }

    /// Turns a client request into a pending query for its first question
    /// and handles it; a request with no question is refused.
    pub fn handle_request(&mut self, request: &DnsPacket, src: PeerAddr, now: u64) -> (r: Result<
        Action,
        DnsError,
    >)
        requires
            old(self).wf(),
        ensures
            final(self).wf(),
            request.questions@.len() == 0 ==> r == Err::<Action, DnsError>(DnsError::NoQuestion)
                && *final(self) == *old(self),
            request.questions@.len() > 0 ==> r is Ok && query_outcome(
                *old(self),
                *final(self),
                QueryRecord {
                    client_id: request.header.id,
                    client_addr: src,
                    question: request.questions@[0],
                    parent_id: 0,
                    expire_at: expiry(now),
                    hops: 0,
                },
                r->Ok_0,
            ),
    {
        if request.questions.len() == 0 {
            return Err(DnsError::NoQuestion);
        }
        let query = QueryRecord {
            client_id: request.header.id,
            client_addr: src,
            question: request.questions[0].duplicate(),
            parent_id: 0,
            expire_at: expire_of_unix(now),
            hops: 0,
        };
        Ok(self.handle_query(query))
    }
}

} // verus!
