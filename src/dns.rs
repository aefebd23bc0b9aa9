use vstd::prelude::*;
use vstd::utf8::encode_utf8;

use crate::buffer::{be16, be32, u16_wire, u32_wire, BytePacketBuffer, PACKET_SIZE};
use crate::error::DnsError;
use crate::text::{ends_with, is_suffix};
use crate::name::{has_long_label, join_labels, name_walk, name_wire, NameWalk};

verus! {

/// Response code of a DNS header.
#[derive(Debug, Clone, Copy, PartialEq, Eq, Structural)]
pub enum ResultCode {
    NOERROR,
    FORMERR,
    SERVFAIL,
    NXDOMAIN,
    NOTIMP,
    REFUSED,
}

/// The response code a 4-bit value stands for; unassigned values read as
/// `NOERROR`.
pub open spec fn rescode_of(n: int) -> ResultCode {
    if n == 1 {
        ResultCode::FORMERR
    } else if n == 2 {
        ResultCode::SERVFAIL
    } else if n == 3 {
        ResultCode::NXDOMAIN
    } else if n == 4 {
        ResultCode::NOTIMP
    } else if n == 5 {
        ResultCode::REFUSED
    } else {
        ResultCode::NOERROR
    }
}

pub open spec fn rescode_num(c: ResultCode) -> u8 {
    match c {
        ResultCode::NOERROR => 0,
        ResultCode::FORMERR => 1,
        ResultCode::SERVFAIL => 2,
        ResultCode::NXDOMAIN => 3,
        ResultCode::NOTIMP => 4,
        ResultCode::REFUSED => 5,
    }
}

impl ResultCode {
    pub fn from_num(n: u8) -> (r: ResultCode)
        ensures
            r == rescode_of(n as int),
    {
        match n {
            1 => ResultCode::FORMERR,
            2 => ResultCode::SERVFAIL,
            3 => ResultCode::NXDOMAIN,
            4 => ResultCode::NOTIMP,
            5 => ResultCode::REFUSED,
            _ => ResultCode::NOERROR,
        }
    }

    pub fn to_num(&self) -> (r: u8)
        ensures
            r == rescode_num(*self),
    {
        match self {
            ResultCode::NOERROR => 0,
            ResultCode::FORMERR => 1,
            ResultCode::SERVFAIL => 2,
            ResultCode::NXDOMAIN => 3,
            ResultCode::NOTIMP => 4,
            ResultCode::REFUSED => 5,
        }
    }
}

/// Record and question types.
#[derive(Debug, Clone, Copy, PartialEq, Eq, Structural)]
pub enum QueryType {
    UNKNOWN(u16),
    A,
    NS,
    CNAME,
    MX,
    AAAA,
}

pub open spec fn qtype_of(n: u16) -> QueryType {
    if n == 1 {
        QueryType::A
    } else if n == 2 {
        QueryType::NS
    } else if n == 5 {
        QueryType::CNAME
    } else if n == 15 {
        QueryType::MX
    } else if n == 28 {
        QueryType::AAAA
    } else {
        QueryType::UNKNOWN(n)
    }
}

pub open spec fn qtype_num(t: QueryType) -> u16 {
    match t {
        QueryType::UNKNOWN(n) => n,
        QueryType::A => 1,
        QueryType::NS => 2,
        QueryType::CNAME => 5,
        QueryType::MX => 15,
        QueryType::AAAA => 28,
    }
}

impl QueryType {
    pub fn from_num(n: u16) -> (r: QueryType)
        ensures
            r == qtype_of(n),
    {
        match n {
            1 => QueryType::A,
            2 => QueryType::NS,
            5 => QueryType::CNAME,
            15 => QueryType::MX,
            28 => QueryType::AAAA,
            _ => QueryType::UNKNOWN(n),
        }
    }

    pub fn to_num(&self) -> (r: u16)
        ensures
            r == qtype_num(*self),
    {
        match self {
            QueryType::UNKNOWN(n) => *n,
            QueryType::A => 1,
            QueryType::NS => 2,
            QueryType::CNAME => 5,
            QueryType::MX => 15,
            QueryType::AAAA => 28,
        }
    }
}

/// The fixed 12-byte header of a DNS message.
#[derive(Debug, Clone, Copy, PartialEq, Eq, Structural)]
pub struct DnsHeader {
    pub id: u16,
    pub recursion_desired: bool,
    pub truncated_message: bool,
    pub authoritative_answer: bool,
    pub opcode: u8,
    pub response: bool,
    pub rescode: ResultCode,
    pub checking_disabled: bool,
    pub authed_data: bool,
    pub z: bool,
    pub recursion_available: bool,
    pub questions: u16,
    pub answers: u16,
    pub authoritative_entries: u16,
    pub resource_entries: u16,
}

pub open spec fn bit(byte: u8, k: int) -> bool {
    (byte as int / pow2(k)) % 2 == 1
}

pub open spec fn pow2(k: int) -> int {
    if k == 0 {
        1
    } else if k == 1 {
        2
    } else if k == 2 {
        4
    } else if k == 3 {
        8
    } else if k == 4 {
        16
    } else if k == 5 {
        32
    } else if k == 6 {
        64
    } else {
        128
    }
}

/// The header held by the 12 bytes at `p`.
pub open spec fn header_of(b: Seq<u8>, p: int) -> DnsHeader {
    let hi = b[p + 2];
    let lo = b[p + 3];
    DnsHeader {
        id: be16(b, p) as u16,
        recursion_desired: bit(hi, 0),
        truncated_message: bit(hi, 1),
        authoritative_answer: bit(hi, 2),
        opcode: ((hi / 8) % 16) as u8,
        response: bit(hi, 7),
        rescode: rescode_of(lo as int % 16),
        checking_disabled: bit(lo, 4),
        authed_data: bit(lo, 5),
        z: bit(lo, 6),
        recursion_available: bit(lo, 7),
        questions: be16(b, p + 4) as u16,
        answers: be16(b, p + 6) as u16,
        authoritative_entries: be16(b, p + 8) as u16,
        resource_entries: be16(b, p + 10) as u16,
    }
}

pub open spec fn flag(b: bool, v: int) -> int {
    if b {
        v
    } else {
        0
    }
}

/// Byte 2 of a header: response, opcode, aa, tc, rd from the top bit down.
pub open spec fn header_hi(h: DnsHeader) -> u8 {
    (flag(h.response, 128) + (h.opcode % 16) * 8 + flag(h.authoritative_answer, 4) + flag(
        h.truncated_message,
        2,
    ) + flag(h.recursion_desired, 1)) as u8
}

/// Byte 3 of a header: ra, reserved, ad, cd, then the response code.
pub open spec fn header_lo(h: DnsHeader) -> u8 {
    (flag(h.recursion_available, 128) + flag(h.z, 64) + flag(h.authed_data, 32) + flag(
        h.checking_disabled,
        16,
    ) + rescode_num(h.rescode)) as u8
}

pub open spec fn header_wire(h: DnsHeader) -> Seq<u8> {
    u16_wire(h.id as int) + seq![header_hi(h), header_lo(h)] + u16_wire(h.questions as int)
        + u16_wire(h.answers as int) + u16_wire(h.authoritative_entries as int) + u16_wire(
        h.resource_entries as int,
    )
}

/// A header with every field zero or unset.
pub open spec fn empty_header() -> DnsHeader {
    DnsHeader {
        id: 0,
        recursion_desired: false,
        truncated_message: false,
        authoritative_answer: false,
        opcode: 0,
        response: false,
        rescode: ResultCode::NOERROR,
        checking_disabled: false,
        authed_data: false,
        z: false,
        recursion_available: false,
        questions: 0,
        answers: 0,
        authoritative_entries: 0,
        resource_entries: 0,
    }
}

impl DnsHeader {
    pub fn new() -> (r: DnsHeader)
        ensures
            r == empty_header(),
    {
        DnsHeader {
            id: 0,
            recursion_desired: false,
            truncated_message: false,
            authoritative_answer: false,
            opcode: 0,
            response: false,
            rescode: ResultCode::NOERROR,
            checking_disabled: false,
            authed_data: false,
            z: false,
            recursion_available: false,
            questions: 0,
            answers: 0,
            authoritative_entries: 0,
            resource_entries: 0,
        }
    }

    /// Reads the 12 header bytes at the cursor.
    pub fn read(buffer: &mut BytePacketBuffer) -> (r: Result<DnsHeader, DnsError>)
        requires
            old(buffer).wf(),
        ensures
            final(buffer).same_data(old(buffer)),
            r is Ok <==> old(buffer).pos + 11 < old(buffer).len,
            r is Ok ==> r->Ok_0 == header_of(old(buffer).buf@, old(buffer).pos as int)
                && final(buffer).pos == old(buffer).pos + 12,
            r is Err ==> r == Err::<DnsHeader, DnsError>(DnsError::EndOfBuffer),
    {
        let ghost b = buffer.buf@;
        let ghost p = buffer.pos as int;
        let id = buffer.read_u16()?;
        let flags = buffer.read_u16()?;
        let questions = buffer.read_u16()?;
        let answers = buffer.read_u16()?;
        let authoritative_entries = buffer.read_u16()?;
        let resource_entries = buffer.read_u16()?;
        let hi = (flags / 256) as u8;
        let lo = (flags % 256) as u8;
        assert(hi == b[p + 2] && lo == b[p + 3]);
        Ok(DnsHeader {
            id,
            recursion_desired: hi % 2 == 1,
            truncated_message: (hi / 2) % 2 == 1,
            authoritative_answer: (hi / 4) % 2 == 1,
            opcode: (hi / 8) % 16,
            response: (hi / 128) % 2 == 1,
            rescode: ResultCode::from_num(lo % 16),
            checking_disabled: (lo / 16) % 2 == 1,
            authed_data: (lo / 32) % 2 == 1,
            z: (lo / 64) % 2 == 1,
            recursion_available: (lo / 128) % 2 == 1,
            questions,
            answers,
            authoritative_entries,
            resource_entries,
        })
    }
}


/// A question: the name asked for and the type wanted.
#[derive(Debug, Clone, PartialEq, Eq)]
pub struct DnsQuestion {
    pub name: String,
    pub qtype: QueryType,
}

pub struct QuestionView {
    pub name: Seq<char>,
    pub qtype: QueryType,
}

impl View for DnsQuestion {
    type V = QuestionView;

    open spec fn view(&self) -> QuestionView {
        QuestionView { name: self.name@, qtype: self.qtype }
    }
}

impl DnsQuestion {
    pub fn new(name: String, qtype: QueryType) -> (r: DnsQuestion)
        ensures
            r.name == name,
            r.qtype == qtype,
    {
        DnsQuestion { name, qtype }
    }

    /// A copy with the same name and type.
    pub fn duplicate(&self) -> (r: DnsQuestion)
        ensures
            r == *self,
    {
        DnsQuestion { name: self.name.clone(), qtype: self.qtype }
    }
}

/// A resource record.  `UNKNOWN` keeps the type and payload length of a
/// record of a type not understood here; its payload is skipped.
#[derive(Debug, Clone, PartialEq, Eq)]
#[allow(inconsistent_fields)]
pub enum DnsRecord {
    UNKNOWN { domain: String, qtype: u16, data_len: u16, ttl: u32 },
    A { domain: String, addr: u32, ttl: u32 },
    NS { domain: String, host: String, ttl: u32 },
    CNAME { domain: String, host: String, ttl: u32 },
    MX { domain: String, priority: u16, host: String, ttl: u32 },
    AAAA { domain: String, addr: u128, ttl: u32 },
}

#[allow(inconsistent_fields)]
pub enum RecordView {
    UNKNOWN { domain: Seq<char>, qtype: u16, data_len: u16, ttl: u32 },
    A { domain: Seq<char>, addr: u32, ttl: u32 },
    NS { domain: Seq<char>, host: Seq<char>, ttl: u32 },
    CNAME { domain: Seq<char>, host: Seq<char>, ttl: u32 },
    MX { domain: Seq<char>, priority: u16, host: Seq<char>, ttl: u32 },
    AAAA { domain: Seq<char>, addr: u128, ttl: u32 },
}

impl View for DnsRecord {
    type V = RecordView;

    open spec fn view(&self) -> RecordView {
        match self {
            DnsRecord::UNKNOWN { domain, qtype, data_len, ttl } => RecordView::UNKNOWN {
                domain: domain@,
                qtype: *qtype,
                data_len: *data_len,
                ttl: *ttl,
            },
            DnsRecord::A { domain, addr, ttl } => RecordView::A {
                domain: domain@,
                addr: *addr,
                ttl: *ttl,
            },
            DnsRecord::NS { domain, host, ttl } => RecordView::NS {
                domain: domain@,
                host: host@,
                ttl: *ttl,
            },
            DnsRecord::CNAME { domain, host, ttl } => RecordView::CNAME {
                domain: domain@,
                host: host@,
                ttl: *ttl,
            },
            DnsRecord::MX { domain, priority, host, ttl } => RecordView::MX {
                domain: domain@,
                priority: *priority,
                host: host@,
                ttl: *ttl,
            },
            DnsRecord::AAAA { domain, addr, ttl } => RecordView::AAAA {
                domain: domain@,
                addr: *addr,
                ttl: *ttl,
            },
        }
    }
}

impl DnsRecord {
    /// A copy with the same fields.
    pub fn duplicate(&self) -> (r: DnsRecord)
        ensures
            r == *self,
    {
        match self {
            DnsRecord::UNKNOWN { domain, qtype, data_len, ttl } => DnsRecord::UNKNOWN {
                domain: domain.clone(),
                qtype: *qtype,
                data_len: *data_len,
                ttl: *ttl,
            },
            DnsRecord::A { domain, addr, ttl } => DnsRecord::A {
                domain: domain.clone(),
                addr: *addr,
                ttl: *ttl,
            },
            DnsRecord::NS { domain, host, ttl } => DnsRecord::NS {
                domain: domain.clone(),
                host: host.clone(),
                ttl: *ttl,
            },
            DnsRecord::CNAME { domain, host, ttl } => DnsRecord::CNAME {
                domain: domain.clone(),
                host: host.clone(),
                ttl: *ttl,
            },
            DnsRecord::MX { domain, priority, host, ttl } => DnsRecord::MX {
                domain: domain.clone(),
                priority: *priority,
                host: host.clone(),
                ttl: *ttl,
            },
            DnsRecord::AAAA { domain, addr, ttl } => DnsRecord::AAAA {
                domain: domain.clone(),
                addr: *addr,
                ttl: *ttl,
            },
        }
    }
}

/// What reading a value at a position gives: the value and the position
/// after it, or the error met.
pub enum Step<T> {
    Got { val: T, end: int },
    Fail { err: DnsError },
}

pub open spec fn read_name_at(b: Seq<u8>, blen: int, p: int) -> Step<Seq<char>> {
    match name_walk(b, blen, p, 0) {
        NameWalk::Done { labels, end } => Step::Got { val: join_labels(labels), end },
        NameWalk::Fail { err, .. } => Step::Fail { err },
    }
}

pub open spec fn question_at(b: Seq<u8>, blen: int, p: int) -> Step<QuestionView> {
    match read_name_at(b, blen, p) {
        Step::Got { val, end } => if end + 3 < blen {
            Step::Got {
                val: QuestionView { name: val, qtype: qtype_of(be16(b, end) as u16) },
                end: end + 4,
            }
        } else {
            Step::Fail { err: DnsError::EndOfBuffer }
        },
        Step::Fail { err } => Step::Fail { err },
    }
}

pub open spec fn be128(b: Seq<u8>, p: int) -> int {
    be32(b, p) * 0x1000000000000000000000000 + be32(b, p + 4) * 0x10000000000000000 + be32(
        b,
        p + 8,
    ) * 0x100000000 + be32(b, p + 12)
}

/// The record data of type `t` at `p`, the header fields already read.
pub open spec fn rdata_at(
    b: Seq<u8>,
    blen: int,
    p: int,
    domain: Seq<char>,
    t: u16,
    ttl: u32,
    dlen: u16,
) -> Step<RecordView> {
    match qtype_of(t) {
        QueryType::A => if p + 3 < blen {
            Step::Got { val: RecordView::A { domain, addr: be32(b, p) as u32, ttl }, end: p + 4 }
        } else {
            Step::Fail { err: DnsError::EndOfBuffer }
        },
        QueryType::AAAA => if p + 15 < blen {
            Step::Got {
                val: RecordView::AAAA { domain, addr: be128(b, p) as u128, ttl },
                end: p + 16,
            }
        } else {
            Step::Fail { err: DnsError::EndOfBuffer }
        },
        QueryType::NS => match read_name_at(b, blen, p) {
            Step::Got { val, end } => Step::Got { val: RecordView::NS { domain, host: val, ttl }, end },
            Step::Fail { err } => Step::Fail { err },
        },
        QueryType::CNAME => match read_name_at(b, blen, p) {
            Step::Got { val, end } => Step::Got {
                val: RecordView::CNAME { domain, host: val, ttl },
                end,
            },
            Step::Fail { err } => Step::Fail { err },
        },
        QueryType::MX => if p + 1 < blen {
            match read_name_at(b, blen, p + 2) {
                Step::Got { val, end } => Step::Got {
                    val: RecordView::MX { domain, priority: be16(b, p) as u16, host: val, ttl },
                    end,
                },
                Step::Fail { err } => Step::Fail { err },
            }
        } else {
            Step::Fail { err: DnsError::EndOfBuffer }
        },
        QueryType::UNKNOWN(n) => Step::Got {
            val: RecordView::UNKNOWN { domain, qtype: n, data_len: dlen, ttl },
            end: p + dlen,
        },
    }
}

/// A record at `p`: its name, type, class, ttl and data length, then its data.
pub open spec fn record_at(b: Seq<u8>, blen: int, p: int) -> Step<RecordView> {
    match read_name_at(b, blen, p) {
        Step::Got { val, end } => if end + 9 < blen {
            rdata_at(
                b,
                blen,
                end + 10,
                val,
                be16(b, end) as u16,
                be32(b, end + 4) as u32,
                be16(b, end + 8) as u16,
            )
        } else {
            Step::Fail { err: DnsError::EndOfBuffer }
        },
        Step::Fail { err } => Step::Fail { err },
    }
}

impl DnsQuestion {
    /// Reads a question at the cursor: a name, a type and a class.
    pub fn read(buffer: &mut BytePacketBuffer) -> (r: Result<DnsQuestion, DnsError>)
        requires
            old(buffer).wf(),
        ensures
            final(buffer).same_data(old(buffer)),
            match question_at(old(buffer).buf@, old(buffer).len as int, old(buffer).pos as int) {
                Step::Got { val, end } => r is Ok && r->Ok_0@ == val && final(buffer).pos == end,
                Step::Fail { err } => r == Err::<DnsQuestion, DnsError>(err),
            },
    {
        let mut name = String::new();
        buffer.read_qname(&mut name)?;
        let t = buffer.read_u16()?;
        let _class = buffer.read_u16()?;
        Ok(DnsQuestion { name, qtype: QueryType::from_num(t) })
    }
}

impl DnsRecord {
    /// Reads a record at the cursor.  The payload of a record of unknown
    /// type is skipped.
    pub fn read(buffer: &mut BytePacketBuffer) -> (r: Result<DnsRecord, DnsError>)
        requires
            old(buffer).wf(),
        ensures
            final(buffer).same_data(old(buffer)),
            match record_at(old(buffer).buf@, old(buffer).len as int, old(buffer).pos as int) {
                Step::Got { val, end } => r is Ok && r->Ok_0@ == val && final(buffer).pos == end,
                Step::Fail { err } => r == Err::<DnsRecord, DnsError>(err),
            },
    {
        let mut domain = String::new();
        buffer.read_qname(&mut domain)?;
        let t = buffer.read_u16()?;
        let _class = buffer.read_u16()?;
        let ttl = buffer.read_u32()?;
        let data_len = buffer.read_u16()?;
        Self::read_data(buffer, domain, t, ttl, data_len)
    }

    fn read_data(buffer: &mut BytePacketBuffer, domain: String, t: u16, ttl: u32, data_len: u16) -> (r:
        Result<DnsRecord, DnsError>)
        requires
            old(buffer).wf(),
            old(buffer).pos <= old(buffer).len,
        ensures
            final(buffer).same_data(old(buffer)),
            match rdata_at(
                old(buffer).buf@,
                old(buffer).len as int,
                old(buffer).pos as int,
                domain@,
                t,
                ttl,
                data_len,
            ) {
                Step::Got { val, end } => r is Ok && r->Ok_0@ == val && final(buffer).pos == end,
                Step::Fail { err } => r == Err::<DnsRecord, DnsError>(err),
            },
    {
        match QueryType::from_num(t) {
            QueryType::A => {
                let addr = buffer.read_u32()?;
                Ok(DnsRecord::A { domain, addr, ttl })
            },
            QueryType::AAAA => {
                let a0 = buffer.read_u32()?;
                let a1 = buffer.read_u32()?;
                let a2 = buffer.read_u32()?;
                let a3 = buffer.read_u32()?;
                let addr = (a0 as u128) * 0x1000000000000000000000000 + (a1 as u128)
                    * 0x10000000000000000 + (a2 as u128) * 0x100000000 + (a3 as u128);
                Ok(DnsRecord::AAAA { domain, addr, ttl })
            },
            QueryType::NS => {
                let mut host = String::new();
                buffer.read_qname(&mut host)?;
                Ok(DnsRecord::NS { domain, host, ttl })
            },
            QueryType::CNAME => {
                let mut host = String::new();
                buffer.read_qname(&mut host)?;
                Ok(DnsRecord::CNAME { domain, host, ttl })
            },
            QueryType::MX => {
                let priority = buffer.read_u16()?;
                let mut host = String::new();
                buffer.read_qname(&mut host)?;
                Ok(DnsRecord::MX { domain, priority, host, ttl })
            },
            QueryType::UNKNOWN(n) => {
                buffer.step(data_len as usize)?;
                Ok(DnsRecord::UNKNOWN { domain, qtype: n, data_len, ttl })
            },
        }
    }
}


/// A whole message: the header and its four sections.
#[derive(Debug, Clone, PartialEq, Eq)]
pub struct DnsPacket {
    pub header: DnsHeader,
    pub questions: Vec<DnsQuestion>,
    pub answers: Vec<DnsRecord>,
    pub authorities: Vec<DnsRecord>,
    pub resources: Vec<DnsRecord>,
}

pub struct PacketView {
    pub header: DnsHeader,
    pub questions: Seq<QuestionView>,
    pub answers: Seq<RecordView>,
    pub authorities: Seq<RecordView>,
    pub resources: Seq<RecordView>,
}

pub open spec fn questions_view(v: Seq<DnsQuestion>) -> Seq<QuestionView> {
    v.map_values(|q: DnsQuestion| q@)
}

pub open spec fn records_view(v: Seq<DnsRecord>) -> Seq<RecordView> {
    v.map_values(|r: DnsRecord| r@)
}

impl View for DnsPacket {
    type V = PacketView;

    open spec fn view(&self) -> PacketView {
        PacketView {
            header: self.header,
            questions: questions_view(self.questions@),
            answers: records_view(self.answers@),
            authorities: records_view(self.authorities@),
            resources: records_view(self.resources@),
        }
    }
}

/// `n` questions one after another from `p`.
pub open spec fn questions_at(b: Seq<u8>, blen: int, p: int, n: nat) -> Step<Seq<QuestionView>>
    decreases n,
{
    if n == 0 {
        Step::Got { val: Seq::empty(), end: p }
    } else {
        match questions_at(b, blen, p, (n - 1) as nat) {
            Step::Got { val, end } => match question_at(b, blen, end) {
                Step::Got { val: q, end: e } => Step::Got { val: val.push(q), end: e },
                Step::Fail { err } => Step::Fail { err },
            },
            Step::Fail { err } => Step::Fail { err },
        }
    }
}

/// `n` records one after another from `p`.
pub open spec fn records_at(b: Seq<u8>, blen: int, p: int, n: nat) -> Step<Seq<RecordView>>
    decreases n,
{
    if n == 0 {
        Step::Got { val: Seq::empty(), end: p }
    } else {
        match records_at(b, blen, p, (n - 1) as nat) {
            Step::Got { val, end } => match record_at(b, blen, end) {
                Step::Got { val: r, end: e } => Step::Got { val: val.push(r), end: e },
                Step::Fail { err } => Step::Fail { err },
            },
            Step::Fail { err } => Step::Fail { err },
        }
    }
}

/// A whole message at `p`: the header, then as many questions and records in
/// each section as the header counts.
pub open spec fn packet_at(b: Seq<u8>, blen: int, p: int) -> Step<PacketView> {
    if p + 11 < blen {
        let h = header_of(b, p);
        match questions_at(b, blen, p + 12, h.questions as nat) {
            Step::Got { val: qs, end: e1 } => match records_at(b, blen, e1, h.answers as nat) {
                Step::Got { val: ans, end: e2 } => match records_at(
                    b,
                    blen,
                    e2,
                    h.authoritative_entries as nat,
                ) {
                    Step::Got { val: auth, end: e3 } => match records_at(
                        b,
                        blen,
                        e3,
                        h.resource_entries as nat,
                    ) {
                        Step::Got { val: res, end: e4 } => Step::Got {
                            val: PacketView {
                                header: h,
                                questions: qs,
                                answers: ans,
                                authorities: auth,
                                resources: res,
                            },
                            end: e4,
                        },
                        Step::Fail { err } => Step::Fail { err },
                    },
                    Step::Fail { err } => Step::Fail { err },
                },
                Step::Fail { err } => Step::Fail { err },
            },
            Step::Fail { err } => Step::Fail { err },
        }
    } else {
        Step::Fail { err: DnsError::EndOfBuffer }
    }
}

proof fn lemma_questions_fail(b: Seq<u8>, blen: int, p: int, m: nat, n: nat, err: DnsError)
    requires
        m <= n,
        questions_at(b, blen, p, m) == (Step::<Seq<QuestionView>>::Fail { err }),
    ensures
        questions_at(b, blen, p, n) == (Step::<Seq<QuestionView>>::Fail { err }),
    decreases n - m,
{
    if m < n {
        lemma_questions_fail(b, blen, p, m, (n - 1) as nat, err);
    }
}

proof fn lemma_records_fail(b: Seq<u8>, blen: int, p: int, m: nat, n: nat, err: DnsError)
    requires
        m <= n,
        records_at(b, blen, p, m) == (Step::<Seq<RecordView>>::Fail { err }),
    ensures
        records_at(b, blen, p, n) == (Step::<Seq<RecordView>>::Fail { err }),
    decreases n - m,
{
    if m < n {
        lemma_records_fail(b, blen, p, m, (n - 1) as nat, err);
    }
}

fn read_records(buffer: &mut BytePacketBuffer, n: u16) -> (r: Result<Vec<DnsRecord>, DnsError>)
    requires
        old(buffer).wf(),
    ensures
        final(buffer).same_data(old(buffer)),
        match records_at(old(buffer).buf@, old(buffer).len as int, old(buffer).pos as int, n as nat) {
            Step::Got { val, end } => r is Ok && records_view(r->Ok_0@) == val && final(buffer).pos
                == end,
            Step::Fail { err } => r == Err::<Vec<DnsRecord>, DnsError>(err),
        },
{
    let ghost b = buffer.buf@;
    let ghost blen = buffer.len as int;
    let ghost p_start = buffer.pos as int;
    let mut out: Vec<DnsRecord> = Vec::new();
    let mut i: u16 = 0;
    proof {
        assert(records_view(out@) =~= Seq::<RecordView>::empty());
    }
    while i < n
        invariant
            buffer.wf(),
            buffer.buf@ == b,
            buffer.len == blen,
            buffer.same_data(old(buffer)),
            old(buffer).buf@ == b,
            old(buffer).len == blen,
            old(buffer).pos == p_start,
            i <= n,
            records_at(b, blen, p_start, i as nat) == (Step::Got {
                val: records_view(out@),
                end: buffer.pos as int,
            }),
        decreases n - i,
    {
        let ghost before = out@;
        let rec = match DnsRecord::read(buffer) {
            Ok(rec) => rec,
            Err(e) => {
                proof {
                    lemma_records_fail(b, blen, p_start, (i + 1) as nat, n as nat, e);
                }
                return Err(e);
            },
        };
        out.push(rec);
        proof {
            assert(records_view(out@) =~= records_view(before).push(rec@));
        }
        i = i + 1;
    }
    Ok(out)
}

impl DnsPacket {
    pub fn new() -> (r: DnsPacket)
        ensures
            r.header == empty_header(),
            r.questions@.len() == 0,
            r.answers@.len() == 0,
            r.authorities@.len() == 0,
            r.resources@.len() == 0,
    {
        DnsPacket {
            header: DnsHeader::new(),
            questions: Vec::new(),
            answers: Vec::new(),
            authorities: Vec::new(),
            resources: Vec::new(),
        }
    }

    /// Reads a whole message at the cursor.
    pub fn from_buffer(buffer: &mut BytePacketBuffer) -> (r: Result<DnsPacket, DnsError>)
        requires
            old(buffer).wf(),
        ensures
            final(buffer).same_data(old(buffer)),
            match packet_at(old(buffer).buf@, old(buffer).len as int, old(buffer).pos as int) {
                Step::Got { val, end } => r is Ok && r->Ok_0@ == val && final(buffer).pos == end,
                Step::Fail { err } => r == Err::<DnsPacket, DnsError>(err),
            },
    {
        let ghost b = buffer.buf@;
        let ghost blen = buffer.len as int;
        let ghost p_start = buffer.pos as int;
        let header = DnsHeader::read(buffer)?;
        let mut questions: Vec<DnsQuestion> = Vec::new();
        let mut i: u16 = 0;
        proof {
            assert(questions_view(questions@) =~= Seq::<QuestionView>::empty());
        }
        while i < header.questions
            invariant
                buffer.wf(),
                buffer.buf@ == b,
                buffer.len == blen,
                buffer.same_data(old(buffer)),
                old(buffer).buf@ == b,
                old(buffer).len == blen,
                old(buffer).pos == p_start,
                header == header_of(b, p_start),
                p_start + 11 < blen,
                i <= header.questions,
                questions_at(b, blen, p_start + 12, i as nat) == (Step::Got {
                    val: questions_view(questions@),
                    end: buffer.pos as int,
                }),
            decreases header.questions - i,
        {
            let ghost before = questions@;
            let q = match DnsQuestion::read(buffer) {
                Ok(q) => q,
                Err(e) => {
                    proof {
                        assert(questions_at(b, blen, p_start + 12, (i + 1) as nat) == (Step::<
                            Seq<QuestionView>,
                        >::Fail { err: e }));
                        lemma_questions_fail(
                            b,
                            blen,
                            p_start + 12,
                            (i + 1) as nat,
                            header.questions as nat,
                            e,
                        );
                    }
                    return Err(e);
                },
            };
            questions.push(q);
            proof {
                assert(questions_view(questions@) =~= questions_view(before).push(q@));
            }
            i = i + 1;
        }
        let answers = read_records(buffer, header.answers)?;
        let authorities = read_records(buffer, header.authoritative_entries)?;
        let resources = read_records(buffer, header.resource_entries)?;
        Ok(DnsPacket { header, questions, answers, authorities, resources })
    }
}


/// Wire form of a name given as text.
pub open spec fn text_wire(name: Seq<char>) -> Seq<u8> {
    name_wire(encode_utf8(name))
}

pub open spec fn text_long(name: Seq<char>) -> bool {
    has_long_label(encode_utf8(name))
}

pub open spec fn question_wire(q: QuestionView) -> Seq<u8> {
    text_wire(q.name) + u16_wire(qtype_num(q.qtype) as int) + u16_wire(1)
}

/// Type, class and ttl of a record, after its name.
pub open spec fn record_head(t: int, ttl: u32) -> Seq<u8> {
    u16_wire(t) + u16_wire(1) + u32_wire(ttl as int)
}

pub open spec fn u128_wire(v: u128) -> Seq<u8> {
    u32_wire(v as int / 0x1000000000000000000000000) + u32_wire(
        v as int / 0x10000000000000000 % 0x100000000,
    ) + u32_wire(v as int / 0x100000000 % 0x100000000) + u32_wire(v as int % 0x100000000)
}

/// Wire form of a record; a record of unknown type is left out.
pub open spec fn record_wire(r: RecordView) -> Seq<u8> {
    match r {
        RecordView::UNKNOWN { .. } => Seq::empty(),
        RecordView::A { domain, addr, ttl } => text_wire(domain) + record_head(1, ttl) + u16_wire(
            4,
        ) + u32_wire(addr as int),
        RecordView::NS { domain, host, ttl } => text_wire(domain) + record_head(2, ttl)
            + u16_wire(text_wire(host).len() as int) + text_wire(host),
        RecordView::CNAME { domain, host, ttl } => text_wire(domain) + record_head(5, ttl)
            + u16_wire(text_wire(host).len() as int) + text_wire(host),
        RecordView::MX { domain, priority, host, ttl } => text_wire(domain) + record_head(15, ttl)
            + u16_wire(text_wire(host).len() as int + 2) + u16_wire(priority as int) + text_wire(host),
        RecordView::AAAA { domain, addr, ttl } => text_wire(domain) + record_head(28, ttl)
            + u16_wire(16) + u128_wire(addr),
    }
}

/// Some name of the record has a label longer than 63 bytes.
pub open spec fn record_long(r: RecordView) -> bool {
    match r {
        RecordView::UNKNOWN { .. } => false,
        RecordView::A { domain, .. } => text_long(domain),
        RecordView::NS { domain, host, .. } => text_long(domain) || text_long(host),
        RecordView::CNAME { domain, host, .. } => text_long(domain) || text_long(host),
        RecordView::MX { domain, host, .. } => text_long(domain) || text_long(host),
        RecordView::AAAA { domain, .. } => text_long(domain),
    }
}

pub open spec fn questions_wire(qs: Seq<QuestionView>) -> Seq<u8>
    decreases qs.len(),
{
    if qs.len() == 0 {
        Seq::empty()
    } else {
        questions_wire(qs.drop_last()) + question_wire(qs.last())
    }
}

pub open spec fn records_wire(rs: Seq<RecordView>) -> Seq<u8>
    decreases rs.len(),
{
    if rs.len() == 0 {
        Seq::empty()
    } else {
        records_wire(rs.drop_last()) + record_wire(rs.last())
    }
}

pub open spec fn questions_long(qs: Seq<QuestionView>) -> bool {
    exists|i: int| 0 <= i < qs.len() && text_long(#[trigger] qs[i].name)
}

pub open spec fn records_long(rs: Seq<RecordView>) -> bool {
    exists|i: int| 0 <= i < rs.len() && record_long(#[trigger] rs[i])
}

/// The header as written: its counts are the lengths of the sections.
pub open spec fn counted_header(v: PacketView) -> DnsHeader {
    DnsHeader {
        questions: v.questions.len() as u16,
        answers: v.answers.len() as u16,
        authoritative_entries: v.authorities.len() as u16,
        resource_entries: v.resources.len() as u16,
        ..v.header
    }
}

pub open spec fn packet_wire(v: PacketView) -> Seq<u8> {
    header_wire(counted_header(v)) + questions_wire(v.questions) + records_wire(v.answers)
        + records_wire(v.authorities) + records_wire(v.resources)
}

pub open spec fn packet_long(v: PacketView) -> bool {
    questions_long(v.questions) || records_long(v.answers) || records_long(v.authorities)
        || records_long(v.resources)
}

pub open spec fn counts_fit(v: PacketView) -> bool {
    &&& v.questions.len() <= 0xFFFF
    &&& v.answers.len() <= 0xFFFF
    &&& v.authorities.len() <= 0xFFFF
    &&& v.resources.len() <= 0xFFFF
}

proof fn lemma_questions_wire_prefix(qs: Seq<QuestionView>, k: int)
    requires
        0 <= k <= qs.len(),
    ensures
        questions_wire(qs.take(k)).len() <= questions_wire(qs).len(),
    decreases qs.len(),
{
    if k < qs.len() {
        assert(qs.drop_last().take(k) =~= qs.take(k));
        lemma_questions_wire_prefix(qs.drop_last(), k);
    } else {
        assert(qs.take(k) =~= qs);
    }
}

proof fn lemma_records_wire_prefix(rs: Seq<RecordView>, k: int)
    requires
        0 <= k <= rs.len(),
    ensures
        records_wire(rs.take(k)).len() <= records_wire(rs).len(),
    decreases rs.len(),
{
    if k < rs.len() {
        assert(rs.drop_last().take(k) =~= rs.take(k));
        lemma_records_wire_prefix(rs.drop_last(), k);
    } else {
        assert(rs.take(k) =~= rs);
    }
}

impl DnsHeader {
    fn flags_hi(&self) -> (r: u8)
        ensures
            r == header_hi(*self),
    {
        let mut v: u8 = (self.opcode % 16) * 8;
        if self.response {
            v = v + 128;
        }
        if self.authoritative_answer {
            v = v + 4;
        }
        if self.truncated_message {
            v = v + 2;
        }
        if self.recursion_desired {
            v = v + 1;
        }
        v
    }

    fn flags_lo(&self) -> (r: u8)
        ensures
            r == header_lo(*self),
    {
        let mut v: u8 = self.rescode.to_num();
        if self.recursion_available {
            v = v + 128;
        }
        if self.z {
            v = v + 64;
        }
        if self.authed_data {
            v = v + 32;
        }
        if self.checking_disabled {
            v = v + 16;
        }
        v
    }

    /// Writes the 12 header bytes at the cursor.
    pub fn write(&self, buffer: &mut BytePacketBuffer) -> (r: Result<(), DnsError>)
        requires
            old(buffer).wf(),
        ensures
            final(buffer).wf(),
            final(buffer).len == old(buffer).len,
            r is Ok <==> old(buffer).pos + 12 <= old(buffer).len,
            r is Ok ==> final(buffer).appended(old(buffer), header_wire(*self)),
            r is Err ==> r == Err::<(), DnsError>(DnsError::EndOfBuffer),
    {
        if buffer.pos > buffer.len || buffer.len - buffer.pos < 12 {
            return Err(DnsError::EndOfBuffer);
        }
        let ghost b0 = *buffer;
        let hi = self.flags_hi();
        let lo = self.flags_lo();
        let ghost b1 = *buffer;
        buffer.write_u16(self.id)?;
        let ghost b2 = *buffer;
        buffer.write(hi)?;
        let ghost b3 = *buffer;
        buffer.write(lo)?;
        let ghost b4 = *buffer;
        proof {
            BytePacketBuffer::lemma_appended_trans(&b1, &b2, &b3, u16_wire(self.id as int), seq![hi]);
            BytePacketBuffer::lemma_appended_trans(&b1, &b3, &b4, u16_wire(self.id as int) + seq![hi], seq![lo]);
        }
        buffer.write_u16(self.questions)?;
        let ghost b5 = *buffer;
        buffer.write_u16(self.answers)?;
        let ghost b6 = *buffer;
        buffer.write_u16(self.authoritative_entries)?;
        let ghost b7 = *buffer;
        buffer.write_u16(self.resource_entries)?;
        proof {
            let x = u16_wire(self.id as int) + seq![hi] + seq![lo];
            BytePacketBuffer::lemma_appended_trans(&b1, &b4, &b5, x, u16_wire(self.questions as int));
            let x = x + u16_wire(self.questions as int);
            BytePacketBuffer::lemma_appended_trans(&b1, &b5, &b6, x, u16_wire(self.answers as int));
            let x = x + u16_wire(self.answers as int);
            BytePacketBuffer::lemma_appended_trans(&b1, &b6, &b7, x, u16_wire(self.authoritative_entries as int));
            let x = x + u16_wire(self.authoritative_entries as int);
            BytePacketBuffer::lemma_appended_trans(&b1, &b7, buffer, x, u16_wire(self.resource_entries as int));
            assert(seq![hi] + seq![lo] =~= seq![header_hi(*self), header_lo(*self)]);
            assert(x + u16_wire(self.resource_entries as int) =~= header_wire(*self));
        }
        Ok(())
    }
}


/// What a writer promises: success exactly when the bytes fit and no label
/// is too long, the bytes written at the cursor on success, and on failure
/// an error that names a reason that holds.
pub open spec fn write_outcome(
    r: Result<(), DnsError>,
    before: BytePacketBuffer,
    after: BytePacketBuffer,
    bytes: Seq<u8>,
    long: bool,
) -> bool {
    &&& after.wf()
    &&& after.len == before.len
    &&& (r is Ok <==> before.pos + bytes.len() <= before.len && !long)
    &&& r is Ok ==> after.appended(&before, bytes)
    &&& r is Err ==> {
        ||| r == Err::<(), DnsError>(DnsError::EndOfBuffer) && before.pos + bytes.len() > before.len
        ||| r == Err::<(), DnsError>(DnsError::LabelTooLong) && long
    }
}

fn write_name(buffer: &mut BytePacketBuffer, name: &String) -> (r: Result<(), DnsError>)
    requires
        old(buffer).wf(),
    ensures
        write_outcome(r, *old(buffer), *final(buffer), text_wire(name@), text_long(name@)),
{
    buffer.write_qname(name.as_str())
}

/// Type, class, ttl and data length of a record.
fn write_head(buffer: &mut BytePacketBuffer, t: u16, ttl: u32, rdlen: u16) -> (r: Result<(), DnsError>)
    requires
        old(buffer).wf(),
    ensures
        write_outcome(
            r,
            *old(buffer),
            *final(buffer),
            record_head(t as int, ttl) + u16_wire(rdlen as int),
            false,
        ),
{
    if buffer.pos > buffer.len || buffer.len - buffer.pos < 10 {
        return Err(DnsError::EndOfBuffer);
    }
    let ghost b0 = *buffer;
    buffer.write_u16(t)?;
    let ghost b1 = *buffer;
    buffer.write_u16(1)?;
    let ghost b2 = *buffer;
    buffer.write_u32(ttl)?;
    let ghost b3 = *buffer;
    buffer.write_u16(rdlen)?;
    proof {
        BytePacketBuffer::lemma_appended_trans(&b0, &b1, &b2, u16_wire(t as int), u16_wire(1));
        BytePacketBuffer::lemma_appended_trans(
            &b0,
            &b2,
            &b3,
            u16_wire(t as int) + u16_wire(1),
            u32_wire(ttl as int),
        );
        BytePacketBuffer::lemma_appended_trans(
            &b0,
            &b3,
            buffer,
            u16_wire(t as int) + u16_wire(1) + u32_wire(ttl as int),
            u16_wire(rdlen as int),
        );
    }
    Ok(())
}

impl DnsQuestion {
    /// Writes the question at the cursor: its name, its type and class 1.
    pub fn write(&self, buffer: &mut BytePacketBuffer) -> (r: Result<(), DnsError>)
        requires
            old(buffer).wf(),
        ensures
            write_outcome(r, *old(buffer), *final(buffer), question_wire(self@), text_long(self.name@)),
    {
        let ghost b0 = *buffer;
        write_name(buffer, &self.name)?;
        let ghost b1 = *buffer;
        buffer.write_u16(self.qtype.to_num())?;
        let ghost b2 = *buffer;
        buffer.write_u16(1)?;
        proof {
            let n = text_wire(self.name@);
            let t = u16_wire(qtype_num(self.qtype) as int);
            BytePacketBuffer::lemma_appended_trans(&b0, &b1, &b2, n, t);
            BytePacketBuffer::lemma_appended_trans(&b0, &b2, buffer, n + t, u16_wire(1));
        }
        Ok(())
    }
}


fn write_a(buffer: &mut BytePacketBuffer, domain: &String, addr: u32, ttl: u32) -> (r: Result<(), DnsError>)
    requires
        old(buffer).wf(),
    ensures
        write_outcome(
            r,
            *old(buffer),
            *final(buffer),
            record_wire(RecordView::A { domain: domain@, addr, ttl }),
            text_long(domain@),
        ),
{
    let ghost b0 = *buffer;
    write_name(buffer, domain)?;
    let ghost b1 = *buffer;
    write_head(buffer, 1, ttl, 4)?;
    let ghost b2 = *buffer;
    buffer.write_u32(addr)?;
    proof {
        let n = text_wire(domain@);
        let h = record_head(1, ttl) + u16_wire(4);
        BytePacketBuffer::lemma_appended_trans(&b0, &b1, &b2, n, h);
        BytePacketBuffer::lemma_appended_trans(&b0, &b2, buffer, n + h, u32_wire(addr as int));
        assert(n + h + u32_wire(addr as int) =~= record_wire(RecordView::A { domain: domain@, addr, ttl }));
    }
    Ok(())
}

fn write_aaaa(buffer: &mut BytePacketBuffer, domain: &String, addr: u128, ttl: u32) -> (r: Result<(), DnsError>)
    requires
        old(buffer).wf(),
    ensures
        write_outcome(
            r,
            *old(buffer),
            *final(buffer),
            record_wire(RecordView::AAAA { domain: domain@, addr, ttl }),
            text_long(domain@),
        ),
{
    let ghost b0 = *buffer;
    write_name(buffer, domain)?;
    let ghost b1 = *buffer;
    write_head(buffer, 28, ttl, 16)?;
    let ghost b2 = *buffer;
    let v = addr;
    buffer.write_u32((v / 0x1000000000000000000000000) as u32)?;
    let ghost b3 = *buffer;
    buffer.write_u32((v / 0x10000000000000000 % 0x100000000) as u32)?;
    let ghost b4 = *buffer;
    buffer.write_u32((v / 0x100000000 % 0x100000000) as u32)?;
    let ghost b5 = *buffer;
    buffer.write_u32((v % 0x100000000) as u32)?;
    proof {
        let n = text_wire(domain@);
        let h = record_head(28, ttl) + u16_wire(16);
        let w0 = u32_wire(v as int / 0x1000000000000000000000000);
        let w1 = u32_wire(v as int / 0x10000000000000000 % 0x100000000);
        let w2 = u32_wire(v as int / 0x100000000 % 0x100000000);
        let w3 = u32_wire(v as int % 0x100000000);
        BytePacketBuffer::lemma_appended_trans(&b0, &b1, &b2, n, h);
        BytePacketBuffer::lemma_appended_trans(&b0, &b2, &b3, n + h, w0);
        BytePacketBuffer::lemma_appended_trans(&b0, &b3, &b4, n + h + w0, w1);
        BytePacketBuffer::lemma_appended_trans(&b0, &b4, &b5, n + h + w0 + w1, w2);
        BytePacketBuffer::lemma_appended_trans(&b0, &b5, buffer, n + h + w0 + w1 + w2, w3);
        assert(n + h + w0 + w1 + w2 + w3 =~= record_wire(
            RecordView::AAAA { domain: domain@, addr, ttl },
        ));
    }
    Ok(())
}

/// A record whose data is one name: NS (type 2) or CNAME (type 5).
fn write_host(buffer: &mut BytePacketBuffer, domain: &String, t: u16, host: &String, ttl: u32) -> (r:
    Result<(), DnsError>)
    requires
        old(buffer).wf(),
    ensures
        write_outcome(
            r,
            *old(buffer),
            *final(buffer),
            text_wire(domain@) + record_head(t as int, ttl) + u16_wire(text_wire(host@).len() as int)
                + text_wire(host@),
            text_long(domain@) || text_long(host@),
        ),
{
    let ghost b0 = *buffer;
    write_name(buffer, domain)?;
    let ghost b1 = *buffer;
    let hl = host.as_str().len();
    if hl > 65533 {
        return Err(DnsError::EndOfBuffer);
    }
    write_head(buffer, t, ttl, (hl + 2) as u16)?;
    let ghost b2 = *buffer;
    write_name(buffer, host)?;
    proof {
        let n = text_wire(domain@);
        let h = record_head(t as int, ttl) + u16_wire(hl + 2);
        BytePacketBuffer::lemma_appended_trans(&b0, &b1, &b2, n, h);
        BytePacketBuffer::lemma_appended_trans(&b0, &b2, buffer, n + h, text_wire(host@));
        assert(n + h + text_wire(host@) =~= text_wire(domain@) + record_head(t as int, ttl)
            + u16_wire(text_wire(host@).len() as int) + text_wire(host@));
    }
    Ok(())
}

fn write_mx(buffer: &mut BytePacketBuffer, domain: &String, priority: u16, host: &String, ttl: u32) -> (r:
    Result<(), DnsError>)
    requires
        old(buffer).wf(),
    ensures
        write_outcome(
            r,
            *old(buffer),
            *final(buffer),
            record_wire(RecordView::MX { domain: domain@, priority, host: host@, ttl }),
            text_long(domain@) || text_long(host@),
        ),
{
    let ghost b0 = *buffer;
    write_name(buffer, domain)?;
    let ghost b1 = *buffer;
    let hl = host.as_str().len();
    if hl > 65531 {
        return Err(DnsError::EndOfBuffer);
    }
    write_head(buffer, 15, ttl, (hl + 4) as u16)?;
    let ghost b2 = *buffer;
    buffer.write_u16(priority)?;
    let ghost b3 = *buffer;
    write_name(buffer, host)?;
    proof {
        let n = text_wire(domain@);
        let h = record_head(15, ttl) + u16_wire(hl + 4);
        let pr = u16_wire(priority as int);
        BytePacketBuffer::lemma_appended_trans(&b0, &b1, &b2, n, h);
        BytePacketBuffer::lemma_appended_trans(&b0, &b2, &b3, n + h, pr);
        BytePacketBuffer::lemma_appended_trans(&b0, &b3, buffer, n + h + pr, text_wire(host@));
        assert(n + h + pr + text_wire(host@) =~= record_wire(
            RecordView::MX { domain: domain@, priority, host: host@, ttl },
        ));
    }
    Ok(())
}

impl DnsRecord {
    /// Writes the record at the cursor.  A record of unknown type is left out.
    pub fn write(&self, buffer: &mut BytePacketBuffer) -> (r: Result<(), DnsError>)
        requires
            old(buffer).wf(),
        ensures
            write_outcome(r, *old(buffer), *final(buffer), record_wire(self@), record_long(self@)),
    {
        match self {
            DnsRecord::UNKNOWN { .. } => {
                if buffer.pos > buffer.len {
                    return Err(DnsError::EndOfBuffer);
                }
                proof {
                    let b0 = *old(buffer);
                    assert(buffer.buf@ =~= b0.buf@.subrange(0, b0.pos as int) + Seq::<u8>::empty()
                        + b0.buf@.subrange(b0.pos as int, PACKET_SIZE as int));
                }
                Ok(())
            },
            DnsRecord::A { domain, addr, ttl } => write_a(buffer, domain, *addr, *ttl),
            DnsRecord::AAAA { domain, addr, ttl } => write_aaaa(buffer, domain, *addr, *ttl),
            DnsRecord::NS { domain, host, ttl } => write_host(buffer, domain, 2, host, *ttl),
            DnsRecord::CNAME { domain, host, ttl } => write_host(buffer, domain, 5, host, *ttl),
            DnsRecord::MX { domain, priority, host, ttl } => write_mx(
                buffer,
                domain,
                *priority,
                host,
                *ttl,
            ),
        }
    }
}


fn write_questions(buffer: &mut BytePacketBuffer, qs: &Vec<DnsQuestion>) -> (r: Result<(), DnsError>)
    requires
        old(buffer).wf(),
    ensures
        write_outcome(
            r,
            *old(buffer),
            *final(buffer),
            questions_wire(questions_view(qs@)),
            questions_long(questions_view(qs@)),
        ),
{
    let ghost b0 = *buffer;
    let ghost v = questions_view(qs@);
    if buffer.pos > buffer.len {
        return Err(DnsError::EndOfBuffer);
    }
    proof {
        assert(v.take(0) =~= Seq::<QuestionView>::empty());
        assert(buffer.buf@ =~= b0.buf@.subrange(0, b0.pos as int) + Seq::<u8>::empty()
            + b0.buf@.subrange(b0.pos as int, PACKET_SIZE as int));
    }
    let mut i: usize = 0;
    while i < qs.len()
        invariant
            b0 == *old(buffer),
            b0.wf(),
            v == questions_view(qs@),
            0 <= i <= qs@.len(),
            buffer.appended(&b0, questions_wire(v.take(i as int))),
            !questions_long(v.take(i as int)),
        decreases qs@.len() - i,
    {
        let ghost bi = *buffer;
        let ghost done = v.take(i as int);
        proof {
            assert(v.take(i + 1).drop_last() =~= done);
            assert(v.take(i + 1).last() == qs@[i as int]@);
            lemma_questions_wire_prefix(v, i + 1);
        }
        match qs[i].write(buffer) {
            Ok(()) => {},
            Err(e) => {
                proof {
                    if e == DnsError::LabelTooLong {
                        assert(text_long(v[i as int].name));
                    }
                }
                return Err(e);
            },
        }
        proof {
            BytePacketBuffer::lemma_appended_trans(&b0, &bi, buffer, questions_wire(done), question_wire(qs@[i as int]@));
            assert forall|k: int| 0 <= k < i + 1 implies !text_long(#[trigger] v.take(i + 1)[k].name) by {
                if k < i {
                    assert(v.take(i + 1)[k] == done[k]);
                }
            }
        }
        i = i + 1;
    }
    proof {
        assert(v.take(qs@.len() as int) =~= v);
    }
    Ok(())
}

fn write_records(buffer: &mut BytePacketBuffer, rs: &Vec<DnsRecord>) -> (r: Result<(), DnsError>)
    requires
        old(buffer).wf(),
    ensures
        write_outcome(
            r,
            *old(buffer),
            *final(buffer),
            records_wire(records_view(rs@)),
            records_long(records_view(rs@)),
        ),
{
    let ghost b0 = *buffer;
    let ghost v = records_view(rs@);
    if buffer.pos > buffer.len {
        return Err(DnsError::EndOfBuffer);
    }
    proof {
        assert(v.take(0) =~= Seq::<RecordView>::empty());
        assert(buffer.buf@ =~= b0.buf@.subrange(0, b0.pos as int) + Seq::<u8>::empty()
            + b0.buf@.subrange(b0.pos as int, PACKET_SIZE as int));
    }
    let mut i: usize = 0;
    while i < rs.len()
        invariant
            b0 == *old(buffer),
            b0.wf(),
            v == records_view(rs@),
            0 <= i <= rs@.len(),
            buffer.appended(&b0, records_wire(v.take(i as int))),
            !records_long(v.take(i as int)),
        decreases rs@.len() - i,
    {
        let ghost bi = *buffer;
        let ghost done = v.take(i as int);
        proof {
            assert(v.take(i + 1).drop_last() =~= done);
            assert(v.take(i + 1).last() == rs@[i as int]@);
            lemma_records_wire_prefix(v, i + 1);
        }
        match rs[i].write(buffer) {
            Ok(()) => {},
            Err(e) => {
                proof {
                    if e == DnsError::LabelTooLong {
                        assert(record_long(v[i as int]));
                    }
                }
                return Err(e);
            },
        }
        proof {
            BytePacketBuffer::lemma_appended_trans(&b0, &bi, buffer, records_wire(done), record_wire(rs@[i as int]@));
            assert forall|k: int| 0 <= k < i + 1 implies !record_long(#[trigger] v.take(i + 1)[k]) by {
                if k < i {
                    assert(v.take(i + 1)[k] == done[k]);
                }
            }
        }
        i = i + 1;
    }
    proof {
        assert(v.take(rs@.len() as int) =~= v);
    }
    Ok(())
}


/// One more piece written after `x`: on failure the whole of `total` is
/// accounted for, on success `x + y` stands written.
proof fn lemma_write_step(
    r: Result<(), DnsError>,
    b0: BytePacketBuffer,
    bi: BytePacketBuffer,
    bj: BytePacketBuffer,
    x: Seq<u8>,
    y: Seq<u8>,
    rest: Seq<u8>,
    total: Seq<u8>,
    ly: bool,
    ltotal: bool,
)
    requires
        b0.wf(),
        bi.appended(&b0, x),
        write_outcome(r, bi, bj, y, ly),
        total == x + y + rest,
        ly ==> ltotal,
    ensures
        r is Err ==> write_outcome(r, b0, bj, total, ltotal),
        r is Ok ==> bj.appended(&b0, x + y),
{
    if r is Ok {
        BytePacketBuffer::lemma_appended_trans(&b0, &bi, &bj, x, y);
    }
}

impl DnsPacket {
    /// Writes the whole message at the cursor, first setting the header's
    /// counts to the lengths of the sections.  Records of unknown type are
    /// left out.  A section longer than a count can hold is refused with
    /// `EndOfBuffer`.
    pub fn write(&mut self, buffer: &mut BytePacketBuffer) -> (r: Result<(), DnsError>)
        requires
            old(buffer).wf(),
        ensures
            !counts_fit(old(self)@) ==> r == Err::<(), DnsError>(DnsError::EndOfBuffer)
                && *final(self) == *old(self) && *final(buffer) == *old(buffer),
            counts_fit(old(self)@) ==> {
                &&& final(self).header == counted_header(old(self)@)
                &&& final(self).questions == old(self).questions
                &&& final(self).answers == old(self).answers
                &&& final(self).authorities == old(self).authorities
                &&& final(self).resources == old(self).resources
                &&& write_outcome(
                    r,
                    *old(buffer),
                    *final(buffer),
                    packet_wire(old(self)@),
                    packet_long(old(self)@),
                )
            },
    {
        if self.questions.len() > 0xFFFF || self.answers.len() > 0xFFFF || self.authorities.len()
            > 0xFFFF || self.resources.len() > 0xFFFF {
            return Err(DnsError::EndOfBuffer);
        }
        self.header.questions = self.questions.len() as u16;
        self.header.answers = self.answers.len() as u16;
        self.header.authoritative_entries = self.authorities.len() as u16;
        self.header.resource_entries = self.resources.len() as u16;
        proof {
            assert(self.header == counted_header(old(self)@));
            assert(self@ == old(self)@ ==> packet_wire(self@) == packet_wire(old(self)@));
        }
        self.write_sections(buffer)
    }

    /// The header as it stands, then the four sections.
    fn write_sections(&self, buffer: &mut BytePacketBuffer) -> (r: Result<(), DnsError>)
        requires
            old(buffer).wf(),
        ensures
            write_outcome(
                r,
                *old(buffer),
                *final(buffer),
                header_wire(self.header) + questions_wire(self@.questions) + records_wire(
                    self@.answers,
                ) + records_wire(self@.authorities) + records_wire(self@.resources),
                packet_long(self@),
            ),
    {
        let ghost v = self@;
        let ghost w1 = header_wire(self.header);
        let ghost w2 = questions_wire(v.questions);
        let ghost w3 = records_wire(v.answers);
        let ghost w4 = records_wire(v.authorities);
        let ghost w5 = records_wire(v.resources);
        let ghost total = w1 + w2 + w3 + w4 + w5;
        let ghost long = packet_long(v);
        let ghost b0 = *buffer;
        let ghost empty = Seq::<u8>::empty();
        if buffer.pos > buffer.len {
            return Err(DnsError::EndOfBuffer);
        }
        proof {
            assert(b0.buf@ =~= b0.buf@.subrange(0, b0.pos as int) + empty + b0.buf@.subrange(
                b0.pos as int,
                PACKET_SIZE as int,
            ));
            assert(total =~= empty + w1 + (w2 + w3 + w4 + w5));
        }
        let r1 = self.header.write(buffer);
        proof {
            assert(write_outcome(r1, b0, *buffer, w1, false));
            lemma_write_step(r1, b0, b0, *buffer, empty, w1, w2 + w3 + w4 + w5, total, false, long);
        }
        if r1.is_err() {
            return r1;
        }
        let ghost b1 = *buffer;
        let ghost x1 = empty + w1;
        proof {
            assert(total =~= x1 + w2 + (w3 + w4 + w5));
        }
        let r2 = write_questions(buffer, &self.questions);
        proof {
            lemma_write_step(r2, b0, b1, *buffer, x1, w2, w3 + w4 + w5, total, questions_long(v.questions), long);
        }
        if r2.is_err() {
            return r2;
        }
        let ghost b2 = *buffer;
        let ghost x2 = x1 + w2;
        proof {
            assert(total =~= x2 + w3 + (w4 + w5));
        }
        let r3 = write_records(buffer, &self.answers);
        proof {
            lemma_write_step(r3, b0, b2, *buffer, x2, w3, w4 + w5, total, records_long(v.answers), long);
        }
        if r3.is_err() {
            return r3;
        }
        let ghost b3 = *buffer;
        let ghost x3 = x2 + w3;
        proof {
            assert(total =~= x3 + w4 + w5);
        }
        let r4 = write_records(buffer, &self.authorities);
        proof {
            lemma_write_step(r4, b0, b3, *buffer, x3, w4, w5, total, records_long(v.authorities), long);
        }
        if r4.is_err() {
            return r4;
        }
        let ghost b4 = *buffer;
        let ghost x4 = x3 + w4;
        proof {
            assert(total =~= x4 + w5 + empty);
        }
        let r5 = write_records(buffer, &self.resources);
        proof {
            lemma_write_step(r5, b0, b4, *buffer, x4, w5, empty, total, records_long(v.resources), long);
            assert(x4 + w5 =~= total);
        }
        if r5.is_err() {
            return r5;
        }
        Ok(())
    }
}


/// The first A record of `res` for `host`, as its address.
pub open spec fn glue_in(res: Seq<RecordView>, host: Seq<char>) -> Option<u32>
    decreases res.len(),
{
    if res.len() == 0 {
        None
    } else {
        match res[0] {
            RecordView::A { domain, addr, .. } => if domain == host {
                Some(addr)
            } else {
                glue_in(res.drop_first(), host)
            },
            _ => glue_in(res.drop_first(), host),
        }
    }
}

/// The host of an NS record whose domain ends `qname`.
pub open spec fn ns_host(r: RecordView, qname: Seq<char>) -> Option<Seq<char>> {
    match r {
        RecordView::NS { domain, host, .. } => if is_suffix(encode_utf8(domain), encode_utf8(qname)) {
            Some(host)
        } else {
            None
        },
        _ => None,
    }
}

/// Going through the authorities in order, the first name server for
/// `qname` with an address among the resources, and that address.
pub open spec fn resolved_ns(auth: Seq<RecordView>, res: Seq<RecordView>, qname: Seq<char>) -> Option<
    u32,
>
    decreases auth.len(),
{
    if auth.len() == 0 {
        None
    } else {
        match ns_host(auth[0], qname) {
            Some(h) => match glue_in(res, h) {
                Some(a) => Some(a),
                None => resolved_ns(auth.drop_first(), res, qname),
            },
            None => resolved_ns(auth.drop_first(), res, qname),
        }
    }
}

/// The first name server for `qname` among the authorities.
pub open spec fn unresolved_ns(auth: Seq<RecordView>, qname: Seq<char>) -> Option<Seq<char>>
    decreases auth.len(),
{
    if auth.len() == 0 {
        None
    } else {
        match ns_host(auth[0], qname) {
            Some(h) => Some(h),
            None => unresolved_ns(auth.drop_first(), qname),
        }
    }
}

fn glue_of(res: &Vec<DnsRecord>, host: &String) -> (r: Option<u32>)
    ensures
        r == glue_in(records_view(res@), host@),
{
    let ghost v = records_view(res@);
    let mut i: usize = 0;
    assert(v.skip(0) =~= v);
    while i < res.len()
        invariant
            0 <= i <= res@.len(),
            v == records_view(res@),
            glue_in(v, host@) == glue_in(v.skip(i as int), host@),
        decreases res@.len() - i,
    {
        assert(v.skip(i as int).drop_first() =~= v.skip(i + 1));
        assert(v.skip(i as int)[0] == res@[i as int]@);
        match &res[i] {
            DnsRecord::A { domain, addr, .. } => {
                if *domain == *host {
                    return Some(*addr);
                }
            },
            _ => {},
        }
        i = i + 1;
    }
    None
}

impl DnsPacket {
    /// The address of a name server for `qname` that the message both names
    /// in its authorities and gives an A record for in its resources.
    pub fn get_resolved_ns(&self, qname: &str) -> (r: Option<u32>)
        ensures
            r == resolved_ns(self@.authorities, self@.resources, qname@),
    {
        let ghost v = self@.authorities;
        let mut i: usize = 0;
        assert(v.skip(0) =~= v);
        while i < self.authorities.len()
            invariant
                0 <= i <= self.authorities@.len(),
                v == self@.authorities,
                resolved_ns(v, self@.resources, qname@) == resolved_ns(
                    v.skip(i as int),
                    self@.resources,
                    qname@,
                ),
            decreases self.authorities@.len() - i,
        {
            assert(v.skip(i as int).drop_first() =~= v.skip(i + 1));
            assert(v.skip(i as int)[0] == self.authorities@[i as int]@);
            match &self.authorities[i] {
                DnsRecord::NS { domain, host, .. } => {
                    if ends_with(qname, domain.as_str()) {
                        match glue_of(&self.resources, host) {
                            Some(a) => {
                                return Some(a);
                            },
                            None => {},
                        }
                    }
                },
                _ => {},
            }
            i = i + 1;
        }
        None
    }

    /// The host of the first name server for `qname` in the authorities.
    pub fn get_unresolved_ns(&self, qname: &str) -> (r: Option<String>)
        ensures
            match unresolved_ns(self@.authorities, qname@) {
                Some(h) => r is Some && r->Some_0@ == h,
                None => r is None,
            },
    {
        let ghost v = self@.authorities;
        let mut i: usize = 0;
        assert(v.skip(0) =~= v);
        while i < self.authorities.len()
            invariant
                0 <= i <= self.authorities@.len(),
                v == self@.authorities,
                unresolved_ns(v, qname@) == unresolved_ns(v.skip(i as int), qname@),
            decreases self.authorities@.len() - i,
        {
            assert(v.skip(i as int).drop_first() =~= v.skip(i + 1));
            assert(v.skip(i as int)[0] == self.authorities@[i as int]@);
            match &self.authorities[i] {
                DnsRecord::NS { domain, host, .. } => {
                    if ends_with(qname, domain.as_str()) {
                        return Some(host.clone());
                    }
                },
                _ => {},
            }
            i = i + 1;
        }
        None
    }
}

} // verus!
