use vstd::prelude::*;

use crate::error::DnsError;
use crate::text::{lossy_text, lower_text};

verus! {

/// Code of the dot that separates labels.
pub const DOT: u8 = 46;

/// The text a label contributes to a name read from the wire.
pub open spec fn label_text(l: Seq<u8>) -> Seq<char> {
    lower_text(lossy_text(l))
}

/// The labels' texts joined by dots.
pub open spec fn join_labels(ls: Seq<Seq<u8>>) -> Seq<char>
    decreases ls.len(),
{
    if ls.len() == 0 {
        Seq::empty()
    } else if ls.len() == 1 {
        label_text(ls[0])
    } else {
        join_labels(ls.drop_last()) + seq!['.'] + label_text(ls.last())
    }
}

/// Outcome of reading a name at some position.
pub enum NameWalk {
    /// The labels read, and where the caller's cursor ends.
    Done { labels: Seq<Seq<u8>>, end: int },
    /// The error met, the labels read before it, whether it was met while
    /// reading a label's bytes (a separating dot is then already written
    /// after earlier labels), and where the caller's cursor was moved by a
    /// pointer met before it, if any.
    Fail { err: DnsError, labels: Seq<Seq<u8>>, at_label: bool, end: Option<int> },
}

pub open spec fn is_pointer(b: u8) -> bool {
    b >= 0xC0
}

pub open spec fn pointer_target(b: Seq<u8>, p: int) -> int {
    (b[p] - 0xC0) * 256 + b[p + 1]
}

pub open spec fn fail_at(err: DnsError, at_label: bool) -> NameWalk {
    NameWalk::Fail { err, labels: Seq::empty(), at_label, end: None }
}

/// Reading a name from `pos` in the first `blen` bytes of `b`, after `jumps`
/// compression pointers have been followed.  A pointer moves the read to its
/// target; the caller's cursor ends just past the first pointer met (it is
/// moved there as soon as that pointer is met, even if the read fails
/// later), or past the terminating zero where there is none.
pub open spec fn name_walk(b: Seq<u8>, blen: int, pos: int, jumps: nat) -> NameWalk
    decreases 7 - jumps, blen - pos,
{
    if jumps > 5 {
        fail_at(DnsError::JumpsExceeded, false)
    } else if pos < 0 || pos >= blen {
        fail_at(DnsError::EndOfBuffer, false)
    } else if is_pointer(b[pos]) {
        if pos + 1 >= blen {
            NameWalk::Fail {
                err: DnsError::EndOfBuffer,
                labels: Seq::empty(),
                at_label: false,
                end: Some(pos + 2),
            }
        } else {
            match name_walk(b, blen, pointer_target(b, pos), jumps + 1) {
                NameWalk::Done { labels, end } => NameWalk::Done { labels, end: pos + 2 },
                NameWalk::Fail { err, labels, at_label, end } => NameWalk::Fail {
                    err,
                    labels,
                    at_label,
                    end: Some(pos + 2),
                },
            }
        }
    } else if b[pos] == 0 {
        NameWalk::Done { labels: Seq::empty(), end: pos + 1 }
    } else if pos + 1 + b[pos] > blen {
        fail_at(DnsError::EndOfBuffer, true)
    } else {
        let l = b.subrange(pos + 1, pos + 1 + b[pos]);
        match name_walk(b, blen, pos + 1 + b[pos], jumps) {
            NameWalk::Done { labels, end } => NameWalk::Done { labels: seq![l] + labels, end },
            NameWalk::Fail { err, labels, at_label, end } => NameWalk::Fail {
                err,
                labels: seq![l] + labels,
                at_label,
                end,
            },
        }
    }
}

/// What a failed read has already written after the labels before it: a
/// dot, when it failed on a label's bytes after an earlier label.
pub open spec fn fail_text(labels: Seq<Seq<u8>>, at_label: bool) -> Seq<char> {
    join_labels(labels) + if at_label && labels.len() > 0 {
        seq!['.']
    } else {
        Seq::empty()
    }
}

/// Length of the label of `n` that starts at `j`.
pub open spec fn label_len_at(n: Seq<u8>, j: int) -> int
    decreases n.len() - j,
{
    if j < 0 || j >= n.len() || n[j] == DOT {
        0
    } else {
        1 + label_len_at(n, j + 1)
    }
}

/// The wire form of a dotted name: each label after its length, then a zero.
pub open spec fn name_wire(n: Seq<u8>) -> Seq<u8> {
    Seq::new(
        (n.len() + 2) as nat,
        |i: int|
            if i == 0 {
                label_len_at(n, 0) as u8
            } else if i == n.len() + 1 {
                0u8
            } else if n[i - 1] == DOT {
                label_len_at(n, i) as u8
            } else {
                n[i - 1]
            },
    )
}

/// No dot among the bytes `a..b` of `n`.
pub open spec fn no_dot(n: Seq<u8>, a: int, b: int) -> bool {
    forall|k: int| a <= k < b ==> #[trigger] n[k] != DOT
}

/// Some label of `n` is longer than 63 bytes.
pub open spec fn has_long_label(n: Seq<u8>) -> bool {
    exists|a: int, b: int| 0 <= a <= b <= n.len() && b - a > 63 && #[trigger] no_dot(n, a, b)
}

pub proof fn lemma_label_len(n: Seq<u8>, a: int, j: int)
    requires
        0 <= a <= j <= n.len(),
        no_dot(n, a, j),
        j == n.len() || n[j] == DOT,
    ensures
        label_len_at(n, a) == j - a,
    decreases j - a,
{
    if a < j {
        lemma_label_len(n, a + 1, j);
    }
}


/// Positions from which a name read can only go round: each one holds a
/// pointer to another of them, or a non-empty label followed by another of
/// them.  Any cycle of pointers, with or without labels on it, is such a set.
pub open spec fn closed_loop(b: Seq<u8>, blen: int, s: Set<int>) -> bool {
    forall|p: int|
        #[trigger] s.contains(p) ==> 0 <= p < blen && if is_pointer(b[p]) {
            p + 1 < blen && s.contains(pointer_target(b, p))
        } else {
            b[p] != 0 && p + 1 + b[p] <= blen && s.contains(p + 1 + b[p])
        }
}

proof fn lemma_loop_fails_from(b: Seq<u8>, blen: int, s: Set<int>, pos: int, jumps: nat)
    requires
        closed_loop(b, blen, s),
        s.contains(pos),
        jumps <= 6,
    ensures
        name_walk(b, blen, pos, jumps) matches NameWalk::Fail { err: DnsError::JumpsExceeded, .. },
    decreases 7 - jumps, blen - pos,
{
    if jumps <= 5 {
        if is_pointer(b[pos]) {
            lemma_loop_fails_from(b, blen, s, pointer_target(b, pos), jumps + 1);
        } else {
            lemma_loop_fails_from(b, blen, s, pos + 1 + b[pos], jumps);
        }
    }
}

/// A name read that starts on a loop of compression pointers ends, and fails
/// with `JumpsExceeded`.
pub proof fn lemma_pointer_loop_fails(b: Seq<u8>, blen: int, s: Set<int>, pos: int)
    requires
        closed_loop(b, blen, s),
        s.contains(pos),
    ensures
        name_walk(b, blen, pos, 0) matches NameWalk::Fail { err: DnsError::JumpsExceeded, .. },
{
    lemma_loop_fails_from(b, blen, s, pos, 0);
}

} // verus!
