use vstd::prelude::*;
use vstd::utf8::{encode_utf8, is_ascii_chars, is_ascii_chars_encode_utf8};

use crate::name::{
    has_long_label, join_labels, label_len_at, label_text, name_walk, name_wire, no_dot, NameWalk, DOT,
};
use crate::buffer::{be16, be32, u16_wire, u32_wire};
use crate::dns::{
    be128, bit, header_hi, header_lo, header_of, header_wire, qtype_num, qtype_of, question_at,
    question_wire, read_name_at, record_at, record_head, record_wire, rescode_num, rescode_of,
    text_wire, u128_wire, DnsHeader, QuestionView, RecordView, Step, questions_at, questions_wire,
    records_at, records_wire, packet_at, packet_wire, counted_header, counts_fit, PacketView,
};
use crate::parse::{last_sep, split_on};
use crate::text::{ascii_chars, ascii_lower, is_ascii_bytes, is_lower_ascii};

verus! {

proof fn lemma_last_sep_is(s: Seq<u8>, sep: u8, j: int)
    requires
        -1 <= j < s.len(),
        j >= 0 ==> s[j] == sep,
        forall|k: int| j < k < s.len() ==> s[k] != sep,
    ensures
        last_sep(s, sep) == j,
    decreases s.len(),
{
    if s.len() > 0 && s.len() - 1 != j {
        assert(s.last() != sep);
        assert forall|k: int| j < k < s.drop_last().len() implies s.drop_last()[k] != sep by {
            assert(s.drop_last()[k] == s[k]);
        }
        lemma_last_sep_is(s.drop_last(), sep, j);
    }
}

proof fn lemma_last_sep_after(s: Seq<u8>, sep: u8)
    ensures
        -1 <= last_sep(s, sep) < s.len(),
        last_sep(s, sep) >= 0 ==> s[last_sep(s, sep)] == sep,
        forall|k: int| last_sep(s, sep) < k < s.len() ==> s[k] != sep,
    decreases s.len(),
{
    if s.len() > 0 && s.last() != sep {
        lemma_last_sep_after(s.drop_last(), sep);
        assert forall|k: int| last_sep(s, sep) < k < s.len() implies s[k] != sep by {
            if k < s.len() - 1 {
                assert(s.drop_last()[k] == s[k]);
            }
        }
    }
}

proof fn lemma_split_nosep(s: Seq<u8>, sep: u8)
    requires
        forall|k: int| 0 <= k < s.len() ==> s[k] != sep,
    ensures
        split_on(s, sep) == seq![s],
{
    lemma_last_sep_is(s, sep, -1);
}

proof fn lemma_split_len(s: Seq<u8>, sep: u8)
    ensures
        split_on(s, sep).len() >= 1,
    decreases s.len(),
{
    lemma_last_sep_after(s, sep);
    let j = last_sep(s, sep);
    if j >= 0 {
        lemma_split_len(s.take(j), sep);
    }
}

/// Splitting at the first separator.
proof fn lemma_split_front(s: Seq<u8>, sep: u8, i: int)
    requires
        0 <= i < s.len(),
        s[i] == sep,
        forall|k: int| 0 <= k < i ==> s[k] != sep,
    ensures
        split_on(s, sep) == seq![s.take(i)] + split_on(s.skip(i + 1), sep),
    decreases s.len(),
{
    lemma_last_sep_after(s, sep);
    let j = last_sep(s, sep);
    assert(j >= i) by {
        if j < i {
            assert(s[i] != sep);
        }
    }
    lemma_split_nosep(s.take(i), sep);
    let u = s.skip(i + 1);
    if j == i {
        assert forall|k: int| 0 <= k < u.len() implies u[k] != sep by {
            assert(u[k] == s[k + i + 1]);
        }
        lemma_split_nosep(u, sep);
        assert(split_on(s, sep) == split_on(s.take(i), sep).push(s.skip(i + 1)));
        assert(seq![s.take(i)].push(u) =~= seq![s.take(i)] + seq![u]);
    } else {
        let t = s.take(j);
        assert(t[i] == sep);
        assert forall|k: int| 0 <= k < i implies t[k] != sep by {
            assert(t[k] == s[k]);
        }
        lemma_split_front(t, sep, i);
        assert(t.take(i) =~= s.take(i));
        assert(u[j - i - 1] == s[j]);
        assert forall|k: int| j - i - 1 < k < u.len() implies u[k] != sep by {
            assert(u[k] == s[k + i + 1]);
        }
        lemma_last_sep_is(u, sep, j - i - 1);
        assert(u.take(j - i - 1) =~= t.skip(i + 1));
        assert(u.skip(j - i) =~= s.skip(j + 1));
        assert(split_on(u, sep) == split_on(t.skip(i + 1), sep).push(s.skip(j + 1)));
        assert(split_on(s, sep) == split_on(t, sep).push(s.skip(j + 1)));
        assert((seq![s.take(i)] + split_on(t.skip(i + 1), sep)).push(s.skip(j + 1)) =~= seq![
            s.take(i),
        ] + split_on(t.skip(i + 1), sep).push(s.skip(j + 1)));
    }
}

/// Bytes of lowercase ASCII text.
pub open spec fn lower_ascii_bytes(e: Seq<u8>) -> bool {
    forall|i: int| 0 <= i < e.len() ==> #[trigger] e[i] < 128 && !(65 <= e[i] <= 90)
}

proof fn lemma_label_text_ascii(l: Seq<u8>)
    requires
        lower_ascii_bytes(l),
    ensures
        label_text(l) == ascii_chars(l),
{
    assert(is_ascii_bytes(l));
    let c = ascii_chars(l);
    assert forall|i: int| 0 <= i < c.len() implies (#[trigger] c[i] as u32) < 128 && !('A' <= c[i]
        && c[i] <= 'Z') by {
        assert(c[i] == l[i] as char);
        assert(l[i] < 128 && !(65 <= l[i] <= 90));
    }
    assert(is_lower_ascii(c));
    assert(is_ascii_chars(c));
    assert(ascii_lower(c) =~= c) by {
        assert forall|i: int| 0 <= i < c.len() implies ascii_lower(c)[i] == c[i] by {
            assert(!('A' <= c[i] && c[i] <= 'Z'));
        }
    }
}

/// Joining the labels of a lowercase ASCII name gives back its text.
proof fn lemma_join_split(e: Seq<u8>)
    requires
        lower_ascii_bytes(e),
    ensures
        join_labels(split_on(e, DOT)) == ascii_chars(e),
    decreases e.len(),
{
    lemma_last_sep_after(e, DOT);
    let j = last_sep(e, DOT);
    if j < 0 {
        lemma_label_text_ascii(e);
    } else {
        let t = e.take(j);
        let u = e.skip(j + 1);
        assert(lower_ascii_bytes(t)) by {
            assert forall|i: int| 0 <= i < t.len() implies #[trigger] t[i] < 128 && !(65 <= t[i]
                <= 90) by {
                assert(t[i] == e[i]);
            }
        }
        assert(lower_ascii_bytes(u)) by {
            assert forall|i: int| 0 <= i < u.len() implies #[trigger] u[i] < 128 && !(65 <= u[i]
                <= 90) by {
                assert(u[i] == e[i + j + 1]);
            }
        }
        lemma_join_split(t);
        lemma_label_text_ascii(u);
        lemma_split_len(t, DOT);
        let parts = split_on(e, DOT);
        assert(parts == split_on(t, DOT).push(u));
        assert(parts.drop_last() =~= split_on(t, DOT));
        assert(parts.last() == u);
        assert(join_labels(parts) == join_labels(split_on(t, DOT)) + seq!['.'] + label_text(u));
        assert(e[j] == DOT);
        assert(ascii_chars(e) =~= ascii_chars(t) + seq!['.'] + ascii_chars(u));
    }
}


/// Name bytes that come back unchanged from the wire: lowercase ASCII,
/// non-empty labels of at most 63 bytes.
pub open spec fn name_ok(e: Seq<u8>) -> bool {
    &&& e.len() >= 1
    &&& lower_ascii_bytes(e)
    &&& e[0] != DOT
    &&& e.last() != DOT
    &&& forall|i: int| 0 <= i < e.len() - 1 ==> !(#[trigger] e[i] == DOT && e[i + 1] == DOT)
    &&& !has_long_label(e)
}

/// A name that comes back unchanged from the wire.
pub open spec fn valid_name(n: Seq<char>) -> bool {
    is_ascii_chars(n) && name_ok(encode_utf8(n))
}

proof fn lemma_label_len_end(e: Seq<u8>, k: int)
    requires
        0 <= k <= e.len(),
    ensures
        0 <= label_len_at(e, k),
        k + label_len_at(e, k) <= e.len(),
        no_dot(e, k, k + label_len_at(e, k)),
        k + label_len_at(e, k) == e.len() || e[k + label_len_at(e, k)] == DOT,
    decreases e.len() - k,
{
    if k < e.len() && e[k] != DOT {
        lemma_label_len_end(e, k + 1);
    }
}

proof fn lemma_walk_wire(b: Seq<u8>, blen: int, p: int, e: Seq<u8>, k: int)
    requires
        name_ok(e),
        0 <= p,
        p + e.len() + 2 <= blen <= b.len(),
        b.subrange(p, p + e.len() + 2) == name_wire(e),
        0 <= k < e.len(),
        k == 0 || e[k - 1] == DOT,
    ensures
        name_walk(b, blen, p + k, 0) == (NameWalk::Done {
            labels: split_on(e.skip(k), DOT),
            end: p + e.len() + 2,
        }),
    decreases e.len() - k,
{
    let w = name_wire(e);
    lemma_label_len_end(e, k);
    let len = label_len_at(e, k);
    let m = k + len;
    assert(e[k] != DOT) by {
        if k > 0 {
            assert(!(e[k - 1] == DOT && e[k] == DOT));
        }
    }
    assert(len >= 1);
    assert(len <= 63) by {
        if len > 63 {
            assert(no_dot(e, k, m));
            assert(has_long_label(e));
        }
    }
    assert(b[p + k] == w[k]);
    assert(b[p + k] == len);
    let l = b.subrange(p + k + 1, p + k + 1 + len);
    assert(l =~= e.subrange(k, m)) by {
        assert forall|i: int| 0 <= i < len implies l[i] == e.subrange(k, m)[i] by {
            assert(b[p + k + 1 + i] == w[k + 1 + i]);
            assert(e[k + i] != DOT);
        }
    }
    let s = e.skip(k);
    if m == e.len() {
        assert(b[p + m + 1] == w[e.len() as int + 1]);
        assert forall|i: int| 0 <= i < s.len() implies s[i] != DOT by {
            assert(s[i] == e[k + i]);
        }
        lemma_split_nosep(s, DOT);
        assert(s =~= l);
        assert(name_walk(b, blen, p + m + 1, 0) == (NameWalk::Done {
            labels: Seq::<Seq<u8>>::empty(),
            end: p + e.len() + 2,
        }));
        assert(seq![l] + Seq::<Seq<u8>>::empty() =~= seq![l]);
    } else {
        assert(e[m] == DOT);
        assert(m + 1 < e.len());
        assert(b[p + m + 1] == w[m + 1]);
        lemma_walk_wire(b, blen, p, e, m + 1);
        assert(s[len] == DOT);
        assert forall|i: int| 0 <= i < len implies s[i] != DOT by {
            assert(s[i] == e[k + i]);
        }
        lemma_split_front(s, DOT, len);
        assert(s.take(len) =~= l);
        assert(s.skip(len + 1) =~= e.skip(m + 1));
    }
}

/// A valid name written in wire form reads back as itself.
pub proof fn lemma_name_round_trip(b: Seq<u8>, blen: int, p: int, n: Seq<char>)
    requires
        valid_name(n),
        0 <= p,
        p + encode_utf8(n).len() + 2 <= blen <= b.len(),
        b.subrange(p, p + encode_utf8(n).len() + 2) == name_wire(encode_utf8(n)),
    ensures
        read_name_at(b, blen, p) == (Step::Got { val: n, end: p + encode_utf8(n).len() + 2 }),
{
    let e = encode_utf8(n);
    lemma_walk_wire(b, blen, p, e, 0);
    assert(e.skip(0) =~= e);
    lemma_join_split(e);
    is_ascii_chars_encode_utf8(n);
    assert(ascii_chars(e) =~= n) by {
        assert forall|i: int| 0 <= i < n.len() implies ascii_chars(e)[i] == n[i] by {
            assert(n[i] as u8 == e[i]);
            assert('\0' <= n[i] <= '\u{7f}');
        }
    }
}


proof fn lemma_be16(b: Seq<u8>, p: int, v: int)
    requires
        0 <= v < 0x10000,
        0 <= p,
        p + 2 <= b.len(),
        b.subrange(p, p + 2) == u16_wire(v),
    ensures
        be16(b, p) == v,
{
    assert(b[p] == u16_wire(v)[0] && b[p + 1] == u16_wire(v)[1]);
}

proof fn lemma_be32(b: Seq<u8>, p: int, v: int)
    requires
        0 <= v < 0x100000000,
        0 <= p,
        p + 4 <= b.len(),
        b.subrange(p, p + 4) == u32_wire(v),
    ensures
        be32(b, p) == v,
{
    let w = u32_wire(v);
    assert(b[p] == w[0] && b[p + 1] == w[1] && b[p + 2] == w[2] && b[p + 3] == w[3]);
    assert(v / 16777216 < 256);
    assert((v / 16777216) * 16777216 + (v / 65536 % 256) * 65536 + (v / 256 % 256) * 256 + v % 256
        == v) by (nonlinear_arith)
        requires
            0 <= v < 0x100000000,
    {
    }
}

proof fn lemma_flag_bytes(h: DnsHeader)
    requires
        h.opcode < 16,
    ensures
        bit(header_hi(h), 0) == h.recursion_desired,
        bit(header_hi(h), 1) == h.truncated_message,
        bit(header_hi(h), 2) == h.authoritative_answer,
        (header_hi(h) / 8) % 16 == h.opcode,
        bit(header_hi(h), 7) == h.response,
        rescode_of(header_lo(h) as int % 16) == h.rescode,
        bit(header_lo(h), 4) == h.checking_disabled,
        bit(header_lo(h), 5) == h.authed_data,
        bit(header_lo(h), 6) == h.z,
        bit(header_lo(h), 7) == h.recursion_available,
{
    let r: int = if h.response { 1 } else { 0 };
    let a: int = if h.authoritative_answer { 1 } else { 0 };
    let t: int = if h.truncated_message { 1 } else { 0 };
    let d: int = if h.recursion_desired { 1 } else { 0 };
    let op = h.opcode as int;
    let hi = header_hi(h) as int;
    assert(hi == r * 128 + op * 8 + a * 4 + t * 2 + d);
    assert(hi % 2 == d && (hi / 2) % 2 == t && (hi / 4) % 2 == a && (hi / 8) % 16 == op && (hi
        / 128) % 2 == r) by (nonlinear_arith)
        requires
            hi == r * 128 + op * 8 + a * 4 + t * 2 + d,
            0 <= r <= 1,
            0 <= a <= 1,
            0 <= t <= 1,
            0 <= d <= 1,
            0 <= op < 16,
    {
    }
    let ra: int = if h.recursion_available { 1 } else { 0 };
    let z: int = if h.z { 1 } else { 0 };
    let ad: int = if h.authed_data { 1 } else { 0 };
    let cd: int = if h.checking_disabled { 1 } else { 0 };
    let rc = rescode_num(h.rescode) as int;
    let lo = header_lo(h) as int;
    assert(lo == ra * 128 + z * 64 + ad * 32 + cd * 16 + rc);
    assert(lo % 16 == rc && (lo / 16) % 2 == cd && (lo / 32) % 2 == ad && (lo / 64) % 2 == z && (lo
        / 128) % 2 == ra) by (nonlinear_arith)
        requires
            lo == ra * 128 + z * 64 + ad * 32 + cd * 16 + rc,
            0 <= ra <= 1,
            0 <= z <= 1,
            0 <= ad <= 1,
            0 <= cd <= 1,
            0 <= rc <= 5,
    {
    }
}

/// A header written to the wire reads back as itself.
pub proof fn lemma_header_round_trip(b: Seq<u8>, p: int, h: DnsHeader)
    requires
        h.opcode < 16,
        0 <= p,
        p + 12 <= b.len(),
        b.subrange(p, p + 12) == header_wire(h),
    ensures
        header_of(b, p) == h,
{
    let w = header_wire(h);
    assert(b.subrange(p, p + 2) =~= u16_wire(h.id as int)) by {
        assert(b.subrange(p, p + 2) =~= w.subrange(0, 2));
    }
    assert(b.subrange(p + 4, p + 6) =~= u16_wire(h.questions as int)) by {
        assert(b.subrange(p + 4, p + 6) =~= w.subrange(4, 6));
    }
    assert(b.subrange(p + 6, p + 8) =~= u16_wire(h.answers as int)) by {
        assert(b.subrange(p + 6, p + 8) =~= w.subrange(6, 8));
    }
    assert(b.subrange(p + 8, p + 10) =~= u16_wire(h.authoritative_entries as int)) by {
        assert(b.subrange(p + 8, p + 10) =~= w.subrange(8, 10));
    }
    assert(b.subrange(p + 10, p + 12) =~= u16_wire(h.resource_entries as int)) by {
        assert(b.subrange(p + 10, p + 12) =~= w.subrange(10, 12));
    }
    assert(b[p + 2] == header_hi(h) && b[p + 3] == header_lo(h)) by {
        assert(b[p + 2] == w[2] && b[p + 3] == w[3]);
    }
    lemma_be16(b, p, h.id as int);
    lemma_be16(b, p + 4, h.questions as int);
    lemma_be16(b, p + 6, h.answers as int);
    lemma_be16(b, p + 8, h.authoritative_entries as int);
    lemma_be16(b, p + 10, h.resource_entries as int);
    lemma_flag_bytes(h);
}


/// The bytes at `p` are `s`; then the bytes at `p + o` are the piece of `s` at `o`.
proof fn lemma_piece(b: Seq<u8>, p: int, s: Seq<u8>, o: int, m: int)
    requires
        0 <= p,
        p + s.len() <= b.len(),
        b.subrange(p, p + s.len()) == s,
        0 <= o,
        0 <= m,
        o + m <= s.len(),
    ensures
        b.subrange(p + o, p + o + m) == s.subrange(o, o + m),
{
    assert(b.subrange(p + o, p + o + m) =~= s.subrange(o, o + m)) by {
        assert forall|i: int| 0 <= i < m implies #[trigger] b.subrange(p + o, p + o + m)[i]
            == s.subrange(o, o + m)[i] by {
            assert(b[p + o + i] == b.subrange(p, p + s.len())[o + i]);
        }
    }
}

proof fn lemma_be128(b: Seq<u8>, p: int, v: u128)
    requires
        0 <= p,
        p + 16 <= b.len(),
        b.subrange(p, p + 16) == u128_wire(v),
    ensures
        be128(b, p) == v,
{
    let w = u128_wire(v);
    let x = v as int;
    let a0 = x / 0x1000000000000000000000000;
    let a1 = x / 0x10000000000000000 % 0x100000000;
    let a2 = x / 0x100000000 % 0x100000000;
    let a3 = x % 0x100000000;
    assert(0 <= a0 < 0x100000000) by (nonlinear_arith)
        requires
            a0 == x / 0x1000000000000000000000000,
            0 <= x < 0x100000000000000000000000000000000,
    {
    }
    lemma_piece(b, p, w, 0, 4);
    lemma_piece(b, p, w, 4, 4);
    lemma_piece(b, p, w, 8, 4);
    lemma_piece(b, p, w, 12, 4);
    assert(w.subrange(0, 4) =~= u32_wire(a0));
    assert(w.subrange(4, 8) =~= u32_wire(a1));
    assert(w.subrange(8, 12) =~= u32_wire(a2));
    assert(w.subrange(12, 16) =~= u32_wire(a3));
    lemma_be32(b, p, a0);
    lemma_be32(b, p + 4, a1);
    lemma_be32(b, p + 8, a2);
    lemma_be32(b, p + 12, a3);
    assert(a0 * 0x1000000000000000000000000 + a1 * 0x10000000000000000 + a2 * 0x100000000 + a3
        == x) by (nonlinear_arith)
        requires
            a0 == x / 0x1000000000000000000000000,
            a1 == x / 0x10000000000000000 % 0x100000000,
            a2 == x / 0x100000000 % 0x100000000,
            a3 == x % 0x100000000,
            0 <= x < 0x100000000000000000000000000000000,
    {
    }
}

/// A question that comes back unchanged from the wire.
pub open spec fn valid_question(q: QuestionView) -> bool {
    valid_name(q.name) && qtype_of(qtype_num(q.qtype)) == q.qtype
}

pub proof fn lemma_question_round_trip(b: Seq<u8>, blen: int, p: int, q: QuestionView)
    requires
        valid_question(q),
        0 <= p,
        p + question_wire(q).len() <= blen <= b.len(),
        b.subrange(p, p + question_wire(q).len()) == question_wire(q),
    ensures
        question_at(b, blen, p) == (Step::Got { val: q, end: p + question_wire(q).len() }),
{
    let w = question_wire(q);
    let tw = text_wire(q.name);
    let nl = tw.len() as int;
    lemma_piece(b, p, w, 0, nl);
    assert(w.subrange(0, nl) =~= tw);
    lemma_name_round_trip(b, blen, p, q.name);
    lemma_piece(b, p, w, nl, 2);
    assert(w.subrange(nl, nl + 2) =~= u16_wire(qtype_num(q.qtype) as int));
    lemma_be16(b, p + nl, qtype_num(q.qtype) as int);
}

/// A record that comes back unchanged from the wire: of a known type, with
/// valid names.
pub open spec fn valid_record(r: RecordView) -> bool {
    match r {
        RecordView::UNKNOWN { .. } => false,
        RecordView::A { domain, .. } => valid_name(domain),
        RecordView::AAAA { domain, .. } => valid_name(domain),
        RecordView::NS { domain, host, .. } => valid_name(domain) && valid_name(host),
        RecordView::CNAME { domain, host, .. } => valid_name(domain) && valid_name(host),
        RecordView::MX { domain, host, .. } => valid_name(domain) && valid_name(host),
    }
}

pub open spec fn record_domain(r: RecordView) -> Seq<char> {
    match r {
        RecordView::UNKNOWN { domain, .. } => domain,
        RecordView::A { domain, .. } => domain,
        RecordView::AAAA { domain, .. } => domain,
        RecordView::NS { domain, .. } => domain,
        RecordView::CNAME { domain, .. } => domain,
        RecordView::MX { domain, .. } => domain,
    }
}

/// The ten bytes after a record's name: type, class, ttl, data length.
proof fn lemma_record_head(b: Seq<u8>, e: int, t: int, ttl: u32, rdlen: int)
    requires
        0 <= e,
        e + 10 <= b.len(),
        0 <= t < 0x10000,
        0 <= rdlen < 0x10000,
        b.subrange(e, e + 10) == record_head(t, ttl) + u16_wire(rdlen),
    ensures
        be16(b, e) == t,
        be32(b, e + 4) == ttl,
        be16(b, e + 8) == rdlen,
{
    let h = record_head(t, ttl) + u16_wire(rdlen);
    lemma_piece(b, e, h, 0, 2);
    lemma_piece(b, e, h, 4, 4);
    lemma_piece(b, e, h, 8, 2);
    assert(h.subrange(0, 2) =~= u16_wire(t));
    assert(h.subrange(4, 8) =~= u32_wire(ttl as int));
    assert(h.subrange(8, 10) =~= u16_wire(rdlen));
    lemma_be16(b, e, t);
    lemma_be32(b, e + 4, ttl as int);
    lemma_be16(b, e + 8, rdlen);
}


/// The name of a record read back, and where its fixed part starts.
proof fn lemma_record_name(b: Seq<u8>, blen: int, p: int, r: RecordView)
    requires
        valid_name(record_domain(r)),
        0 <= p,
        p + record_wire(r).len() <= blen <= b.len(),
        b.subrange(p, p + record_wire(r).len()) == record_wire(r),
        record_wire(r).len() >= text_wire(record_domain(r)).len() + 10,
        record_wire(r).subrange(0, text_wire(record_domain(r)).len() as int) == text_wire(
            record_domain(r),
        ),
    ensures
        read_name_at(b, blen, p) == (Step::Got {
            val: record_domain(r),
            end: p + text_wire(record_domain(r)).len(),
        }),
        b.subrange(
            p + text_wire(record_domain(r)).len(),
            p + text_wire(record_domain(r)).len() + 10,
        ) == record_wire(r).subrange(
            text_wire(record_domain(r)).len() as int,
            text_wire(record_domain(r)).len() as int + 10,
        ),
{
    let w = record_wire(r);
    let nl = text_wire(record_domain(r)).len() as int;
    lemma_piece(b, p, w, 0, nl);
    lemma_name_round_trip(b, blen, p, record_domain(r));
    lemma_piece(b, p, w, nl, 10);
}

proof fn lemma_record_a(b: Seq<u8>, blen: int, p: int, domain: Seq<char>, addr: u32, ttl: u32)
    requires
        valid_name(domain),
        0 <= p,
        p + record_wire(RecordView::A { domain, addr, ttl }).len() <= blen <= b.len(),
        b.subrange(p, p + record_wire(RecordView::A { domain, addr, ttl }).len()) == record_wire(
            RecordView::A { domain, addr, ttl },
        ),
    ensures
        record_at(b, blen, p) == (Step::Got {
            val: RecordView::A { domain, addr, ttl },
            end: p + record_wire(RecordView::A { domain, addr, ttl }).len(),
        }),
{
    let r = RecordView::A { domain, addr, ttl };
    let w = record_wire(r);
    let nl = text_wire(domain).len() as int;
    assert(w.subrange(0, nl) =~= text_wire(domain));
    lemma_record_name(b, blen, p, r);
    let e = p + nl;
    assert(w.subrange(nl, nl + 10) =~= record_head(1, ttl) + u16_wire(4));
    lemma_record_head(b, e, 1, ttl, 4);
    lemma_piece(b, p, w, nl + 10, 4);
    assert(w.subrange(nl + 10, nl + 14) =~= u32_wire(addr as int));
    lemma_be32(b, e + 10, addr as int);
}

proof fn lemma_record_aaaa(b: Seq<u8>, blen: int, p: int, domain: Seq<char>, addr: u128, ttl: u32)
    requires
        valid_name(domain),
        0 <= p,
        p + record_wire(RecordView::AAAA { domain, addr, ttl }).len() <= blen <= b.len(),
        b.subrange(p, p + record_wire(RecordView::AAAA { domain, addr, ttl }).len())
            == record_wire(RecordView::AAAA { domain, addr, ttl }),
    ensures
        record_at(b, blen, p) == (Step::Got {
            val: RecordView::AAAA { domain, addr, ttl },
            end: p + record_wire(RecordView::AAAA { domain, addr, ttl }).len(),
        }),
{
    let r = RecordView::AAAA { domain, addr, ttl };
    let w = record_wire(r);
    let nl = text_wire(domain).len() as int;
    assert(w.subrange(0, nl) =~= text_wire(domain));
    lemma_record_name(b, blen, p, r);
    let e = p + nl;
    assert(w.subrange(nl, nl + 10) =~= record_head(28, ttl) + u16_wire(16));
    lemma_record_head(b, e, 28, ttl, 16);
    lemma_piece(b, p, w, nl + 10, 16);
    assert(w.subrange(nl + 10, nl + 26) =~= u128_wire(addr));
    lemma_be128(b, e + 10, addr);
}

proof fn lemma_record_host(
    b: Seq<u8>,
    blen: int,
    p: int,
    r: RecordView,
    t: int,
    host: Seq<char>,
    ttl: u32,
)
    requires
        valid_name(record_domain(r)),
        valid_name(host),
        t == 2 || t == 5,
        record_wire(r) == text_wire(record_domain(r)) + record_head(t, ttl) + u16_wire(
            text_wire(host).len() as int,
        ) + text_wire(host),
        0 <= p,
        p + record_wire(r).len() <= blen <= b.len(),
        blen <= 0x10000,
        b.subrange(p, p + record_wire(r).len()) == record_wire(r),
    ensures
        read_name_at(b, blen, p) == (Step::Got {
            val: record_domain(r),
            end: p + text_wire(record_domain(r)).len(),
        }),
        be16(b, p + text_wire(record_domain(r)).len()) == t,
        be32(b, p + text_wire(record_domain(r)).len() + 4) == ttl,
        read_name_at(b, blen, p + text_wire(record_domain(r)).len() + 10) == (Step::Got {
            val: host,
            end: p + record_wire(r).len(),
        }),
{
    let w = record_wire(r);
    let nl = text_wire(record_domain(r)).len() as int;
    let hw = text_wire(host);
    let hl = hw.len() as int;
    assert(w.subrange(0, nl) =~= text_wire(record_domain(r)));
    lemma_record_name(b, blen, p, r);
    let e = p + nl;
    assert(w.subrange(nl, nl + 10) =~= record_head(t, ttl) + u16_wire(hl));
    lemma_record_head(b, e, t, ttl, hl);
    lemma_piece(b, p, w, nl + 10, hl);
    assert(w.subrange(nl + 10, nl + 10 + hl) =~= hw);
    lemma_name_round_trip(b, blen, e + 10, host);
}

proof fn lemma_record_mx(
    b: Seq<u8>,
    blen: int,
    p: int,
    domain: Seq<char>,
    priority: u16,
    host: Seq<char>,
    ttl: u32,
)
    requires
        valid_name(domain),
        valid_name(host),
        0 <= p,
        p + record_wire(RecordView::MX { domain, priority, host, ttl }).len() <= blen <= b.len(),
        blen <= 0x10000,
        b.subrange(p, p + record_wire(RecordView::MX { domain, priority, host, ttl }).len())
            == record_wire(RecordView::MX { domain, priority, host, ttl }),
    ensures
        record_at(b, blen, p) == (Step::Got {
            val: RecordView::MX { domain, priority, host, ttl },
            end: p + record_wire(RecordView::MX { domain, priority, host, ttl }).len(),
        }),
{
    let r = RecordView::MX { domain, priority, host, ttl };
    let w = record_wire(r);
    let nl = text_wire(domain).len() as int;
    let hw = text_wire(host);
    let hl = hw.len() as int;
    assert(w.subrange(0, nl) =~= text_wire(domain));
    lemma_record_name(b, blen, p, r);
    let e = p + nl;
    assert(w.subrange(nl, nl + 10) =~= record_head(15, ttl) + u16_wire(hl + 2));
    lemma_record_head(b, e, 15, ttl, hl + 2);
    lemma_piece(b, p, w, nl + 10, 2);
    assert(w.subrange(nl + 10, nl + 12) =~= u16_wire(priority as int));
    lemma_be16(b, e + 10, priority as int);
    lemma_piece(b, p, w, nl + 12, hl);
    assert(w.subrange(nl + 12, nl + 12 + hl) =~= hw);
    lemma_name_round_trip(b, blen, e + 12, host);
}

pub proof fn lemma_record_round_trip(b: Seq<u8>, blen: int, p: int, r: RecordView)
    requires
        valid_record(r),
        0 <= p,
        p + record_wire(r).len() <= blen <= b.len(),
        blen <= 0x10000,
        b.subrange(p, p + record_wire(r).len()) == record_wire(r),
    ensures
        record_at(b, blen, p) == (Step::Got { val: r, end: p + record_wire(r).len() }),
{
    match r {
        RecordView::A { domain, addr, ttl } => lemma_record_a(b, blen, p, domain, addr, ttl),
        RecordView::AAAA { domain, addr, ttl } => lemma_record_aaaa(b, blen, p, domain, addr, ttl),
        RecordView::NS { domain, host, ttl } => lemma_record_host(b, blen, p, r, 2, host, ttl),
        RecordView::CNAME { domain, host, ttl } => lemma_record_host(b, blen, p, r, 5, host, ttl),
        RecordView::MX { domain, priority, host, ttl } => lemma_record_mx(
            b,
            blen,
            p,
            domain,
            priority,
            host,
            ttl,
        ),
        RecordView::UNKNOWN { .. } => {},
    }
}


proof fn lemma_questions_round_trip(b: Seq<u8>, blen: int, p: int, qs: Seq<QuestionView>)
    requires
        forall|i: int| 0 <= i < qs.len() ==> valid_question(#[trigger] qs[i]),
        0 <= p,
        p + questions_wire(qs).len() <= blen <= b.len(),
        b.subrange(p, p + questions_wire(qs).len()) == questions_wire(qs),
    ensures
        questions_at(b, blen, p, qs.len()) == (Step::Got {
            val: qs,
            end: p + questions_wire(qs).len(),
        }),
    decreases qs.len(),
{
    if qs.len() == 0 {
        assert(qs =~= Seq::<QuestionView>::empty());
    } else {
        let front = qs.drop_last();
        let fw = questions_wire(front);
        let w = questions_wire(qs);
        lemma_piece(b, p, w, 0, fw.len() as int);
        assert(w.subrange(0, fw.len() as int) =~= fw);
        assert forall|i: int| 0 <= i < front.len() implies valid_question(#[trigger] front[i]) by {
            assert(front[i] == qs[i]);
        }
        lemma_questions_round_trip(b, blen, p, front);
        let qw = question_wire(qs.last());
        lemma_piece(b, p, w, fw.len() as int, qw.len() as int);
        assert(w.subrange(fw.len() as int, fw.len() as int + qw.len()) =~= qw);
        assert(valid_question(qs[qs.len() - 1]));
        lemma_question_round_trip(b, blen, p + fw.len(), qs.last());
        assert(front.push(qs.last()) =~= qs);
    }
}

#[verifier::rlimit(40)]
proof fn lemma_records_round_trip(b: Seq<u8>, blen: int, p: int, rs: Seq<RecordView>)
    requires
        forall|i: int| 0 <= i < rs.len() ==> valid_record(#[trigger] rs[i]),
        0 <= p,
        p + records_wire(rs).len() <= blen <= b.len(),
        blen <= 0x10000,
        b.subrange(p, p + records_wire(rs).len()) == records_wire(rs),
    ensures
        records_at(b, blen, p, rs.len()) == (Step::Got {
            val: rs,
            end: p + records_wire(rs).len(),
        }),
    decreases rs.len(),
{
    if rs.len() == 0 {
        assert(rs =~= Seq::<RecordView>::empty());
    } else {
        let front = rs.drop_last();
        let fw = records_wire(front);
        let w = records_wire(rs);
        lemma_piece(b, p, w, 0, fw.len() as int);
        assert(w.subrange(0, fw.len() as int) =~= fw);
        assert forall|i: int| 0 <= i < front.len() implies valid_record(#[trigger] front[i]) by {
            assert(front[i] == rs[i]);
        }
        lemma_records_round_trip(b, blen, p, front);
        let rw = record_wire(rs.last());
        lemma_piece(b, p, w, fw.len() as int, rw.len() as int);
        assert(w.subrange(fw.len() as int, fw.len() as int + rw.len()) =~= rw);
        assert(valid_record(rs[rs.len() - 1]));
        lemma_record_round_trip(b, blen, p + fw.len(), rs.last());
        assert(front.push(rs.last()) =~= rs);
    }
}

/// A message that comes back unchanged from the wire: a 4-bit opcode,
/// sections that a count can hold, valid questions, and records of known
/// types with valid names.
pub open spec fn valid_packet(v: PacketView) -> bool {
    &&& v.header.opcode < 16
    &&& counts_fit(v)
    &&& forall|i: int| 0 <= i < v.questions.len() ==> valid_question(#[trigger] v.questions[i])
    &&& forall|i: int| 0 <= i < v.answers.len() ==> valid_record(#[trigger] v.answers[i])
    &&& forall|i: int| 0 <= i < v.authorities.len() ==> valid_record(#[trigger] v.authorities[i])
    &&& forall|i: int| 0 <= i < v.resources.len() ==> valid_record(#[trigger] v.resources[i])
}

/// The five parts of a message's wire form lie one after another.
proof fn lemma_packet_pieces(b: Seq<u8>, p: int, v: PacketView)
    requires
        0 <= p,
        p + packet_wire(v).len() <= b.len(),
        b.subrange(p, p + packet_wire(v).len()) == packet_wire(v),
    ensures
        ({
            let l1 = header_wire(counted_header(v)).len() as int;
            let l2 = questions_wire(v.questions).len() as int;
            let l3 = records_wire(v.answers).len() as int;
            let l4 = records_wire(v.authorities).len() as int;
            let l5 = records_wire(v.resources).len() as int;
            &&& l1 == 12
            &&& packet_wire(v).len() == l1 + l2 + l3 + l4 + l5
            &&& b.subrange(p, p + l1) == header_wire(counted_header(v))
            &&& b.subrange(p + l1, p + l1 + l2) == questions_wire(v.questions)
            &&& b.subrange(p + l1 + l2, p + l1 + l2 + l3) == records_wire(v.answers)
            &&& b.subrange(p + l1 + l2 + l3, p + l1 + l2 + l3 + l4) == records_wire(v.authorities)
            &&& b.subrange(p + l1 + l2 + l3 + l4, p + l1 + l2 + l3 + l4 + l5) == records_wire(
                v.resources,
            )
        }),
{
    let h = counted_header(v);
    let w = packet_wire(v);
    let w1 = header_wire(h);
    let w2 = questions_wire(v.questions);
    let w3 = records_wire(v.answers);
    let w4 = records_wire(v.authorities);
    let w5 = records_wire(v.resources);
    let l1 = w1.len() as int;
    let l2 = w2.len() as int;
    let l3 = w3.len() as int;
    let l4 = w4.len() as int;
    let l5 = w5.len() as int;
    lemma_piece(b, p, w, 0, l1);
    assert(w.subrange(0, l1) =~= w1);
    lemma_piece(b, p, w, l1, l2);
    assert(w.subrange(l1, l1 + l2) =~= w2);
    lemma_piece(b, p, w, l1 + l2, l3);
    assert(w.subrange(l1 + l2, l1 + l2 + l3) =~= w3);
    lemma_piece(b, p, w, l1 + l2 + l3, l4);
    assert(w.subrange(l1 + l2 + l3, l1 + l2 + l3 + l4) =~= w4);
    lemma_piece(b, p, w, l1 + l2 + l3 + l4, l5);
    assert(w.subrange(l1 + l2 + l3 + l4, l1 + l2 + l3 + l4 + l5) =~= w5);
}

/// Codec round trip: the bytes `DnsPacket::write` puts down for a valid
/// message (`packet_wire`) are read by `DnsPacket::from_buffer` (`packet_at`)
/// as the same message, its header counting its sections, and the read
/// ends just after them.
pub proof fn lemma_codec_round_trip(b: Seq<u8>, blen: int, p: int, v: PacketView)
    requires
        valid_packet(v),
        0 <= p,
        p + packet_wire(v).len() <= blen <= b.len(),
        blen <= 0x10000,
        b.subrange(p, p + packet_wire(v).len()) == packet_wire(v),
    ensures
        packet_at(b, blen, p) == (Step::Got {
            val: PacketView { header: counted_header(v), ..v },
            end: p + packet_wire(v).len(),
        }),
{
    let h = counted_header(v);
    let l1 = header_wire(h).len() as int;
    let l2 = questions_wire(v.questions).len() as int;
    let l3 = records_wire(v.answers).len() as int;
    let l4 = records_wire(v.authorities).len() as int;
    lemma_packet_pieces(b, p, v);
    lemma_header_round_trip(b, p, h);
    lemma_questions_round_trip(b, blen, p + l1, v.questions);
    lemma_records_round_trip(b, blen, p + l1 + l2, v.answers);
    lemma_records_round_trip(b, blen, p + l1 + l2 + l3, v.authorities);
    lemma_records_round_trip(b, blen, p + l1 + l2 + l3 + l4, v.resources);
    assert(h.questions as nat == v.questions.len());
    assert(h.answers as nat == v.answers.len());
    assert(h.authoritative_entries as nat == v.authorities.len());
    assert(h.resource_entries as nat == v.resources.len());
}

} // verus!
