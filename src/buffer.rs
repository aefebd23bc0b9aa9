use vstd::prelude::*;

use vstd::string::StringSliceAdditionalSpecFns;

use crate::error::DnsError;
use crate::name::{
    fail_text, label_text, has_long_label, join_labels, label_len_at, lemma_label_len, name_walk, name_wire, no_dot, NameWalk,
    DOT,
};
use crate::text::{lowercase, utf8_lossy};
use vstd::string::StringExecFns;

verus! {

/// Size of a classic DNS datagram.
pub const PACKET_SIZE: usize = 512;

/// Largest number of compression pointers a name may follow.
pub const MAX_JUMPS: u32 = 5;

/// Largest length of a single label.
pub const MAX_LABEL_LEN: usize = 63;

/// Big-endian value of the two bytes at `i`.
pub open spec fn be16(b: Seq<u8>, i: int) -> int {
    b[i] * 256 + b[i + 1]
}

/// Big-endian value of the four bytes at `i`.
pub open spec fn be32(b: Seq<u8>, i: int) -> int {
    b[i] * 16777216 + b[i + 1] * 65536 + b[i + 2] * 256 + b[i + 3]
}

/// Big-endian bytes of a 16-bit value.
pub open spec fn u16_wire(v: int) -> Seq<u8> {
    seq![(v / 256) as u8, (v % 256) as u8]
}

/// Big-endian bytes of a 32-bit value.
pub open spec fn u32_wire(v: int) -> Seq<u8> {
    seq![(v / 16777216) as u8, (v / 65536 % 256) as u8, (v / 256 % 256) as u8, (v % 256) as u8]
}

/// A fixed 512-byte packet with a cursor `pos` and a valid length `len`.
pub struct BytePacketBuffer {
    pub buf: Vec<u8>,
    pub pos: usize,
    pub len: usize,
}

impl BytePacketBuffer {
    pub open spec fn wf(&self) -> bool {
        &&& self.buf@.len() == PACKET_SIZE
        &&& self.len <= PACKET_SIZE
    }

    /// The same storage and length, only the cursor may differ.
    pub open spec fn same_data(&self, other: &BytePacketBuffer) -> bool {
        &&& self.buf@ == other.buf@
        &&& self.len == other.len
    }

    /// `self` is `old` with `bytes` written at its cursor, and the cursor
    /// moved past them.
    pub open spec fn appended(&self, old: &BytePacketBuffer, bytes: Seq<u8>) -> bool {
        &&& self.wf()
        &&& self.len == old.len
        &&& old.pos + bytes.len() <= old.len
        &&& self.pos == old.pos + bytes.len()
        &&& self.buf@ == old.buf@.subrange(0, old.pos as int) + bytes + old.buf@.subrange(
            old.pos + bytes.len(),
            PACKET_SIZE as int,
        )
    }

    pub proof fn lemma_appended_trans(
        a: &BytePacketBuffer,
        b: &BytePacketBuffer,
        c: &BytePacketBuffer,
        x: Seq<u8>,
        y: Seq<u8>,
    )
        requires
            a.wf(),
            b.appended(a, x),
            c.appended(b, y),
        ensures
            c.appended(a, x + y),
    {
        assert(c.buf@ =~= a.buf@.subrange(0, a.pos as int) + (x + y) + a.buf@.subrange(
            a.pos + (x + y).len(),
            PACKET_SIZE as int,
        ));
    }

    pub fn new() -> (r: BytePacketBuffer)
        ensures
            r.wf(),
            r.pos == 0,
            r.len == PACKET_SIZE,
            r.buf@ == Seq::new(PACKET_SIZE as nat, |i: int| 0u8),
    {
        let buf = vec![0u8; PACKET_SIZE];
        proof {
            assert(buf@ =~= Seq::new(PACKET_SIZE as nat, |i: int| 0u8));
        }
        BytePacketBuffer { buf, pos: 0, len: PACKET_SIZE }
    }

    fn check_range(&self, pos: usize) -> (r: Result<(), DnsError>)
        ensures
            r is Ok <==> pos < self.len,
            r is Err ==> r == Err::<(), DnsError>(DnsError::EndOfBuffer),
    {
        if pos >= self.len {
            return Err(DnsError::EndOfBuffer);
        }
        Ok(())
    }

    pub fn pos(&self) -> (r: usize)
        ensures
            r == self.pos,
    {
        self.pos
    }

    /// Moves the cursor forward; fails only where the new position
    /// would not fit in a `usize`.
    pub fn step(&mut self, steps: usize) -> (r: Result<(), DnsError>)
        ensures
            final(self).same_data(old(self)),
            r is Ok <==> old(self).pos + steps <= usize::MAX,
            r is Ok ==> final(self).pos == old(self).pos + steps,
            r is Err ==> r == Err::<(), DnsError>(DnsError::EndOfBuffer) && final(self).pos
                == old(self).pos,
    {
        if steps > usize::MAX - self.pos {
            return Err(DnsError::EndOfBuffer);
        }
        self.pos = self.pos + steps;
        Ok(())
    }

    pub fn seek(&mut self, pos: usize) -> (r: Result<(), DnsError>)
        ensures
            final(self).same_data(old(self)),
            final(self).pos == pos,
            r is Ok,
    {
        self.pos = pos;
        Ok(())
    }

    pub fn read(&mut self) -> (r: Result<u8, DnsError>)
        requires
            old(self).wf(),
        ensures
            final(self).same_data(old(self)),
            r is Ok <==> old(self).pos < old(self).len,
            r is Ok ==> r->Ok_0 == old(self).buf@[old(self).pos as int] && final(self).pos
                == old(self).pos + 1,
            r is Err ==> r == Err::<u8, DnsError>(DnsError::EndOfBuffer) && final(self).pos
                == old(self).pos,
    {
        self.check_range(self.pos)?;
        let res = self.buf[self.pos];
        self.pos = self.pos + 1;
        Ok(res)
    }

    pub fn get(&mut self, pos: usize) -> (r: Result<u8, DnsError>)
        requires
            old(self).wf(),
        ensures
            *final(self) == *old(self),
            r is Ok <==> pos < old(self).len,
            r is Ok ==> r->Ok_0 == old(self).buf@[pos as int],
            r is Err ==> r == Err::<u8, DnsError>(DnsError::EndOfBuffer),
    {
        self.check_range(pos)?;
        Ok(self.buf[pos])
    }

    /// The `count` bytes from `start`; all of them must lie below `len`.
    pub fn get_range(&self, start: usize, count: usize) -> (r: Result<&[u8], DnsError>)
        requires
            self.wf(),
        ensures
            r is Ok <==> start + count <= self.len,
            r is Ok ==> r->Ok_0@ == self.buf@.subrange(start as int, start + count),
            r is Err ==> r == Err::<&[u8], DnsError>(DnsError::EndOfBuffer),
    {
        if start > self.len || count > self.len - start {
            return Err(DnsError::EndOfBuffer);
        }
        Ok(&self.buf.as_slice()[start..start + count])
    }

    pub fn read_u16(&mut self) -> (r: Result<u16, DnsError>)
        requires
            old(self).wf(),
        ensures
            final(self).same_data(old(self)),
            r is Ok <==> old(self).pos + 1 < old(self).len,
            r is Ok ==> r->Ok_0 == be16(old(self).buf@, old(self).pos as int) && final(self).pos
                == old(self).pos + 2,
            r is Err ==> r == Err::<u16, DnsError>(DnsError::EndOfBuffer) && final(self).pos
                == old(self).pos,
    {
        if self.pos >= self.len || self.pos + 1 >= self.len {
            return Err(DnsError::EndOfBuffer);
        }
        let res = (self.buf[self.pos] as u16) * 256 + (self.buf[self.pos + 1] as u16);
        self.pos = self.pos + 2;
        Ok(res)
    }

    pub fn read_u32(&mut self) -> (r: Result<u32, DnsError>)
        requires
            old(self).wf(),
        ensures
            final(self).same_data(old(self)),
            r is Ok <==> old(self).pos + 3 < old(self).len,
            r is Ok ==> r->Ok_0 == be32(old(self).buf@, old(self).pos as int) && final(self).pos
                == old(self).pos + 4,
            r is Err ==> r == Err::<u32, DnsError>(DnsError::EndOfBuffer) && final(self).pos
                == old(self).pos,
    {
        if self.pos >= self.len || self.len - self.pos <= 3 {
            return Err(DnsError::EndOfBuffer);
        }
        let p = self.pos;
        let res = (self.buf[p] as u32) * 16777216 + (self.buf[p + 1] as u32) * 65536
            + (self.buf[p + 2] as u32) * 256 + (self.buf[p + 3] as u32);
        self.pos = p + 4;
        Ok(res)
    }

    pub fn write(&mut self, val: u8) -> (r: Result<(), DnsError>)
        requires
            old(self).wf(),
        ensures
            final(self).wf(),
            final(self).len == old(self).len,
            r is Ok <==> old(self).pos < old(self).len,
            r is Ok ==> final(self).buf@ == old(self).buf@.update(old(self).pos as int, val)
                && final(self).pos == old(self).pos + 1,
            r is Ok ==> final(self).appended(old(self), seq![val]),
            r is Err ==> r == Err::<(), DnsError>(DnsError::EndOfBuffer) && *final(self)
                == *old(self),
    {
        self.check_range(self.pos)?;
        let p = self.pos;
        self.buf.set(p, val);
        self.pos = p + 1;
        proof {
            assert(self.buf@ =~= old(self).buf@.subrange(0, p as int) + seq![val]
                + old(self).buf@.subrange(p + 1, PACKET_SIZE as int));
        }
        Ok(())
    }

    pub fn write_u16(&mut self, val: u16) -> (r: Result<(), DnsError>)
        requires
            old(self).wf(),
        ensures
            final(self).wf(),
            final(self).len == old(self).len,
            r is Ok <==> old(self).pos + 1 < old(self).len,
            r is Ok ==> final(self).buf@ == old(self).buf@.update(
                old(self).pos as int,
                (val / 256) as u8,
            ).update(old(self).pos + 1, (val % 256) as u8) && final(self).pos == old(self).pos
                + 2,
            r is Ok ==> final(self).appended(old(self), u16_wire(val as int)),
            r is Err ==> r == Err::<(), DnsError>(DnsError::EndOfBuffer) && *final(self)
                == *old(self),
    {
        if self.pos >= self.len || self.pos + 1 >= self.len {
            return Err(DnsError::EndOfBuffer);
        }
        let p = self.pos;
        self.buf.set(p, (val / 256) as u8);
        self.buf.set(p + 1, (val % 256) as u8);
        self.pos = p + 2;
        proof {
            assert(self.buf@ =~= old(self).buf@.subrange(0, p as int) + u16_wire(val as int)
                + old(self).buf@.subrange(p + 2, PACKET_SIZE as int));
        }
        Ok(())
    }

    pub fn write_u32(&mut self, val: u32) -> (r: Result<(), DnsError>)
        requires
            old(self).wf(),
        ensures
            final(self).wf(),
            final(self).len == old(self).len,
            r is Ok <==> old(self).pos + 3 < old(self).len,
            r is Ok ==> final(self).buf@ == old(self).buf@.update(
                old(self).pos as int,
                (val / 16777216) as u8,
            ).update(old(self).pos + 1, (val / 65536 % 256) as u8).update(
                old(self).pos + 2,
                (val / 256 % 256) as u8,
            ).update(old(self).pos + 3, (val % 256) as u8) && final(self).pos == old(self).pos
                + 4,
            r is Ok ==> final(self).appended(old(self), u32_wire(val as int)),
            r is Err ==> r == Err::<(), DnsError>(DnsError::EndOfBuffer) && *final(self)
                == *old(self),
    {
        if self.pos >= self.len || self.len - self.pos <= 3 {
            return Err(DnsError::EndOfBuffer);
        }
        let p = self.pos;
        self.buf.set(p, (val / 16777216) as u8);
        self.buf.set(p + 1, (val / 65536 % 256) as u8);
        self.buf.set(p + 2, (val / 256 % 256) as u8);
        self.buf.set(p + 3, (val % 256) as u8);
        self.pos = p + 4;
        proof {
            assert(self.buf@ =~= old(self).buf@.subrange(0, p as int) + u32_wire(val as int)
                + old(self).buf@.subrange(p + 4, PACKET_SIZE as int));
        }
        Ok(())
    }

    pub fn set(&mut self, pos: usize, val: u8) -> (r: Result<(), DnsError>)
        requires
            old(self).wf(),
        ensures
            final(self).wf(),
            final(self).len == old(self).len,
            final(self).pos == old(self).pos,
            r is Ok <==> pos < old(self).len,
            r is Ok ==> final(self).buf@ == old(self).buf@.update(pos as int, val),
            r is Err ==> r == Err::<(), DnsError>(DnsError::EndOfBuffer) && *final(self)
                == *old(self),
    {
        self.check_range(pos)?;
        self.buf.set(pos, val);
        Ok(())
    }

    pub fn set_u16(&mut self, pos: usize, val: u16) -> (r: Result<(), DnsError>)
        requires
            old(self).wf(),
        ensures
            final(self).wf(),
            final(self).len == old(self).len,
            final(self).pos == old(self).pos,
            r is Ok <==> pos + 1 < old(self).len,
            r is Ok ==> final(self).buf@ == old(self).buf@.update(pos as int, (val / 256) as u8)
                .update(pos + 1, (val % 256) as u8),
            r is Err ==> r == Err::<(), DnsError>(DnsError::EndOfBuffer) && *final(self)
                == *old(self),
    {
        if pos >= self.len || pos + 1 >= self.len {
            return Err(DnsError::EndOfBuffer);
        }
        self.buf.set(pos, (val / 256) as u8);
        self.buf.set(pos + 1, (val % 256) as u8);
        Ok(())
    }

    /// Reads a name at the cursor, following compression pointers, and
    /// appends it to `outstr`.  The cursor ends past the name, or past the
    /// first pointer where the name holds one; it is moved there as soon as
    /// that pointer is met.  Labels are appended as they are read, so a
    /// failed read leaves in `outstr` what it had read before the failure.
    pub fn read_qname(&mut self, outstr: &mut String) -> (r: Result<(), DnsError>)
        requires
            old(self).wf(),
        ensures
            final(self).same_data(old(self)),
            match name_walk(old(self).buf@, old(self).len as int, old(self).pos as int, 0) {
                NameWalk::Done { labels, end } => {
                    &&& r is Ok
                    &&& final(self).pos == end
                    &&& final(outstr)@ == old(outstr)@ + join_labels(labels)
                },
                NameWalk::Fail { err, labels, at_label, end } => {
                    &&& r == Err::<(), DnsError>(err)
                    &&& final(self).pos == match end {
                        Some(e) => e,
                        None => old(self).pos as int,
                    }
                    &&& final(outstr)@ == old(outstr)@ + fail_text(labels, at_label)
                },
            },
    {
        let ghost b = self.buf@;
        let ghost blen = self.len as int;
        let ghost p_start = self.pos as int;
        let ghost out0 = outstr@;
        let mut pos: usize = self.pos;
        let mut jumped = false;
        let mut first_end: usize = 0;
        let mut jumps: u32 = 0;
        let mut first = true;
        let ghost mut consumed: Seq<Seq<u8>> = Seq::empty();
        proof {
            assert(out0 + join_labels(consumed) =~= out0);
        }
        loop
            invariant
                self.wf(),
                self.same_data(old(self)),
                self.buf@ == b,
                self.len == blen,
                old(self).pos == p_start,
                self.pos == if jumped { first_end as int } else { p_start },
                old(outstr)@ == out0,
                jumps <= 6,
                outstr@ == out0 + join_labels(consumed),
                first <==> consumed.len() == 0,
                jumped ==> first_end <= blen + 1,
                match name_walk(b, blen, pos as int, jumps as nat) {
                    NameWalk::Done { labels, end } => name_walk(b, blen, p_start, 0) == (NameWalk::Done {
                        labels: consumed + labels,
                        end: if jumped { first_end as int } else { end },
                    }),
                    NameWalk::Fail { err, labels, at_label, end } => name_walk(b, blen, p_start, 0)
                        == (NameWalk::Fail {
                        err,
                        labels: consumed + labels,
                        at_label,
                        end: if jumped { Some(first_end as int) } else { end },
                    }),
                },
            ensures
                (pos as int) < blen,
                self.wf(),
                self.same_data(old(self)),
                self.pos == if jumped { first_end as int } else { p_start },
                outstr@ == out0 + join_labels(consumed),
                name_walk(b, blen, p_start, 0) == (NameWalk::Done {
                    labels: consumed,
                    end: if jumped { first_end as int } else { pos + 1 },
                }),
            decreases 7 - jumps, if pos as int > blen { 0 } else { blen - pos },
        {
            proof {
                assert(consumed + Seq::<Seq<u8>>::empty() =~= consumed);
                assert(join_labels(consumed) + Seq::<char>::empty() =~= join_labels(consumed));
            }
            if jumps > MAX_JUMPS {
                return Err(DnsError::JumpsExceeded);
            }
            let len = self.get(pos)?;
            if len >= 0xC0 {
                if !jumped {
                    first_end = pos + 2;
                    self.pos = first_end;
                    jumped = true;
                }
                let b2 = self.get(pos + 1)?;
                pos = ((len - 0xC0) as usize) * 256 + b2 as usize;
                jumps = jumps + 1;
                continue;
            }
            if len == 0 {
                break;
            }
            proof {
                reveal_strlit(".");
            }
            if !first {
                outstr.append(".");
            }
            let bytes = match self.get_range(pos + 1, len as usize) {
                Ok(bytes) => bytes,
                Err(e) => {
                    proof {
                        assert(outstr@ =~= out0 + fail_text(consumed + Seq::<Seq<u8>>::empty(), true));
                    }
                    return Err(e);
                },
            };
            let ghost l = bytes@;
            let lossy = utf8_lossy(bytes);
            let text = lowercase(lossy.as_str());
            outstr.append(text.as_str());
            proof {
                assert(consumed.push(l).drop_last() =~= consumed);
                assert(consumed.push(l).last() == l);
                if consumed.len() == 0 {
                    assert(join_labels(consumed.push(l)) == label_text(l));
                }
                assert(outstr@ =~= out0 + join_labels(consumed.push(l)));
                let old_consumed = consumed;
                consumed = consumed.push(l);
                match name_walk(b, blen, pos + 1 + len, jumps as nat) {
                    NameWalk::Done { labels, end } => {
                        assert(old_consumed + (seq![l] + labels) =~= consumed + labels);
                    },
                    NameWalk::Fail { err, labels, at_label, end } => {
                        assert(old_consumed + (seq![l] + labels) =~= consumed + labels);
                    },
                }
            }
            first = false;
            pos = pos + 1 + len as usize;
        }
        if !jumped {
            self.pos = pos + 1;
        }
        Ok(())
    }

    /// Writes `qname` at the cursor in wire form: each dot-separated label
    /// after its length byte, then a zero byte.
    pub fn write_qname(&mut self, qname: &str) -> (r: Result<(), DnsError>)
        requires
            old(self).wf(),
        ensures
            final(self).wf(),
            final(self).len == old(self).len,
            ({
                let n = qname.spec_bytes();
                let p = old(self).pos as int;
                &&& r is Ok <==> p + n.len() + 2 <= old(self).len && !has_long_label(n)
                &&& p + n.len() + 2 > old(self).len ==> r == Err::<(), DnsError>(
                    DnsError::EndOfBuffer,
                )
                &&& p + n.len() + 2 <= old(self).len && has_long_label(n) ==> r == Err::<
                    (),
                    DnsError,
                >(DnsError::LabelTooLong)
                &&& r is Ok ==> final(self).appended(old(self), name_wire(n))
                &&& r is Ok ==> final(self).pos == p + n.len() + 2 && final(self).buf@
                    == old(self).buf@.subrange(0, p) + name_wire(n) + old(self).buf@.subrange(
                    p + n.len() + 2,
                    PACKET_SIZE as int,
                )
            }),
    {
        let bytes = qname.as_bytes();
        let n = bytes.len();
        let p = self.pos;
        if p > self.len || n >= self.len - p || n + 2 > self.len - p {
            return Err(DnsError::EndOfBuffer);
        }
        let ghost nb = bytes@;
        let ghost w = name_wire(nb);
        let ghost b0 = self.buf@;
        let mut start: usize = p;
        let mut count: usize = 0;
        let mut i: usize = 0;
        while i < n
            invariant
                self.wf(),
                self.len == old(self).len,
                self.pos == p,
                p == old(self).pos,
                b0 == old(self).buf@,
                nb == qname.spec_bytes(),
                bytes@ == nb,
                w == name_wire(nb),
                n == nb.len(),
                p + n + 2 <= self.len,
                0 <= i <= n,
                p <= start <= p + i,
                count == p + i - start,
                count <= MAX_LABEL_LEN,
                start == p || nb[start - p - 1] == DOT,
                no_dot(nb, start - p, i as int),
                forall|a: int, c: int|
                    0 <= a <= c <= i && c - a > 63 ==> !#[trigger] no_dot(nb, a, c),
                forall|k: int|
                    p <= k < p + 1 + i && k != start ==> self.buf@[k] == w[k - p],
                forall|k: int|
                    0 <= k < PACKET_SIZE && (k < p || k >= p + 1 + i) ==> #[trigger] self.buf@[k]
                        == b0[k],
            decreases n - i,
        {
            let c = bytes[i];
            if c == DOT {
                proof {
                    lemma_label_len(nb, start - p, i as int);
                }
                self.buf.set(start, count as u8);
                start = p + 1 + i;
                count = 0;
            } else {
                self.buf.set(p + 1 + i, c);
                count = count + 1;
                if count > MAX_LABEL_LEN {
                    proof {
                        assert(no_dot(nb, start - p, i + 1));
                        assert(has_long_label(nb));
                    }
                    return Err(DnsError::LabelTooLong);
                }
            }
            i = i + 1;
        }
        proof {
            lemma_label_len(nb, start - p, n as int);
            assert forall|a: int, c: int| 0 <= a <= c <= n && c - a > 63 implies !#[trigger] no_dot(nb, a, c) by {}
        }
        self.buf.set(start, count as u8);
        self.buf.set(p + 1 + n, 0);
        self.pos = p + n + 2;
        proof {
            assert(self.buf@ =~= b0.subrange(0, p as int) + w + b0.subrange(
                p + n + 2,
                PACKET_SIZE as int,
            ));
        }
        Ok(())
    }
}

} // verus!
