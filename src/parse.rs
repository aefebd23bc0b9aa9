use vstd::prelude::*;

verus! {

/// Index of the last `sep` in `b`, or -1.
pub open spec fn last_sep(b: Seq<u8>, sep: u8) -> int
    decreases b.len(),
{
    if b.len() == 0 {
        -1
    } else if b.last() == sep {
        b.len() - 1
    } else {
        last_sep(b.drop_last(), sep)
    }
}

proof fn lemma_last_sep_range(b: Seq<u8>, sep: u8)
    ensures
        -1 <= last_sep(b, sep) < b.len(),
        last_sep(b, sep) >= 0 ==> b[last_sep(b, sep)] == sep,
    decreases b.len(),
{
    if b.len() > 0 && b.last() != sep {
        lemma_last_sep_range(b.drop_last(), sep);
    }
}

/// The pieces of `b` between occurrences of `sep`: one more piece than
/// there are separators, empty pieces kept.
pub open spec fn split_on(b: Seq<u8>, sep: u8) -> Seq<Seq<u8>>
    decreases b.len(),
{
    let j = last_sep(b, sep);
    if j < 0 || j >= b.len() {
        seq![b]
    } else {
        split_on(b.take(j), sep).push(b.skip(j + 1))
    }
}

pub open spec fn pieces_view(v: Seq<Vec<u8>>) -> Seq<Seq<u8>> {
    v.map_values(|p: Vec<u8>| p@)
}

/// Splits `b` at every `sep`.
pub fn split_bytes(b: &[u8], sep: u8) -> (r: Vec<Vec<u8>>)
    ensures
        pieces_view(r@) == split_on(b@, sep),
{
    let mut out: Vec<Vec<u8>> = Vec::new();
    let mut cur: Vec<u8> = Vec::new();
    let mut start: usize = 0;
    let mut i: usize = 0;
    proof {
        assert(b@.take(0) =~= Seq::<u8>::empty());
        assert(cur@ =~= b@.subrange(0, 0));
        assert(pieces_view(out@).push(cur@) =~= seq![b@.take(0)]);
    }
    while i < b.len()
        invariant
            0 <= start <= i <= b@.len(),
            cur@ == b@.subrange(start as int, i as int),
            split_on(b@.take(i as int), sep) == pieces_view(out@).push(cur@),
            last_sep(b@.take(i as int), sep) == start - 1,
        decreases b@.len() - i,
    {
        let c = b[i];
        let ghost t = b@.take(i + 1);
        proof {
            assert(t.drop_last() =~= b@.take(i as int));
            assert(t.last() == c);
        }
        if c == sep {
            proof {
                lemma_last_sep_range(t, sep);
                assert(t.take(i as int) =~= b@.take(i as int));
                assert(t.skip(i + 1) =~= Seq::<u8>::empty());
                assert(pieces_view(out@.push(cur)) =~= pieces_view(out@).push(cur@));
            }
            out.push(cur);
            cur = Vec::new();
            start = i + 1;
            proof {
                assert(cur@ =~= b@.subrange(start as int, i + 1));
            }
        } else {
            let ghost old_cur = cur@;
            let ghost prev = pieces_view(out@);
            cur.push(c);
            proof {
                assert(cur@ =~= b@.subrange(start as int, i + 1));
                let j = start - 1;
                let bi = b@.take(i as int);
                lemma_last_sep_range(bi, sep);
                if j >= 0 {
                    assert(split_on(bi, sep) == split_on(bi.take(j), sep).push(bi.skip(j + 1)));
                    assert(prev.push(old_cur).drop_last() =~= prev);
                    assert(split_on(bi, sep).drop_last() =~= split_on(bi.take(j), sep));
                    assert(t.take(j) =~= bi.take(j));
                    assert(t.skip(j + 1) =~= cur@);
                    assert(split_on(t, sep) == split_on(t.take(j), sep).push(t.skip(j + 1)));
                } else {
                    assert(split_on(bi, sep) == seq![bi]);
                    assert(prev.len() == 0);
                    assert(prev.push(cur@) =~= seq![cur@]);
                    assert(t =~= cur@);
                    assert(split_on(t, sep) == seq![t]);
                }
                assert(split_on(t, sep) == prev.push(cur@));
            }
        }
        i = i + 1;
    }
    proof {
        assert(b@.take(b@.len() as int) =~= b@);
        assert(pieces_view(out@.push(cur)) =~= pieces_view(out@).push(cur@));
    }
    out.push(cur);
    out
}

pub open spec fn is_digit(c: u8) -> bool {
    48 <= c <= 57
}

pub open spec fn all_digits(s: Seq<u8>) -> bool {
    forall|i: int| 0 <= i < s.len() ==> is_digit(#[trigger] s[i])
}

/// The number the decimal digits `s` write.
pub open spec fn decimal(s: Seq<u8>) -> nat
    decreases s.len(),
{
    if s.len() == 0 {
        0
    } else {
        decimal(s.drop_last()) * 10 + (s.last() - 48) as nat
    }
}

/// The digits of a number written with an optional leading `+`.
pub open spec fn digits_part(s: Seq<u8>) -> Seq<u8> {
    if s.len() > 0 && s[0] == 43 {
        s.drop_first()
    } else {
        s
    }
}

/// What `u64::from_str` gives: an optional `+`, then one or more decimal
/// digits whose value fits.
pub open spec fn u64_of(s: Seq<u8>) -> Option<u64> {
    let d = digits_part(s);
    if d.len() > 0 && all_digits(d) && decimal(d) <= u64::MAX {
        Some(decimal(d) as u64)
    } else {
        None
    }
}

/// Parses a decimal `u64` as `u64::from_str` does.
pub fn parse_u64(s: &[u8]) -> (r: Option<u64>)
    ensures
        r == u64_of(s@),
{
    let mut i: usize = 0;
    if s.len() > 0 && s[0] == 43 {
        i = 1;
    }
    let ghost d = digits_part(s@);
    assert(d =~= s@.skip(i as int));
    if i >= s.len() {
        return None;
    }
    let start = i;
    let mut v: u64 = 0;
    while i < s.len()
        invariant
            start <= i <= s@.len(),
            d == digits_part(s@),
            d =~= s@.skip(start as int),
            all_digits(s@.subrange(start as int, i as int)),
            v == decimal(s@.subrange(start as int, i as int)),
        decreases s@.len() - i,
    {
        let c = s[i];
        proof {
            assert(s@.subrange(start as int, i + 1).drop_last() =~= s@.subrange(
                start as int,
                i as int,
            ));
        }
        if c < 48 || c > 57 {
            proof {
                assert(d[i - start] == c);
                assert(!is_digit(d[i - start]));
                assert(!all_digits(d));
                assert(u64_of(s@) is None);
            }
            return None;
        }
        if v > (u64::MAX - (c - 48) as u64) / 10 {
            proof {
                let dig = (c - 48) as int;
                let q = (u64::MAX - dig) / 10;
                assert(u64::MAX - dig == 10 * q + (u64::MAX - dig) % 10);
                assert(v * 10 + dig > u64::MAX);
                assert(all_digits(d) ==> decimal(d) > u64::MAX) by {
                    if all_digits(d) {
                        lemma_decimal_prefix(d, i - start + 1);
                        assert(d.take(i - start + 1) =~= s@.subrange(start as int, i + 1));
                    }
                }
                assert(u64_of(s@) is None);
            }
            return None;
        }
        v = v * 10 + (c - 48) as u64;
        i = i + 1;
    }
    proof {
        assert(s@.subrange(start as int, s@.len() as int) =~= d);
    }
    Some(v)
}

proof fn lemma_decimal_prefix(d: Seq<u8>, k: int)
    requires
        0 <= k <= d.len(),
        all_digits(d),
    ensures
        decimal(d.take(k)) <= decimal(d),
    decreases d.len(),
{
    if k < d.len() {
        assert(d.drop_last().take(k) =~= d.take(k));
        lemma_decimal_prefix(d.drop_last(), k);
    } else {
        assert(d.take(k) =~= d);
    }
}

/// One part of a dotted IPv4 address: one to three digits, no leading zero,
/// at most 255.
pub open spec fn octet_ok(s: Seq<u8>) -> bool {
    &&& 1 <= s.len() <= 3
    &&& all_digits(s)
    &&& (s.len() == 1 || s[0] != 48)
    &&& decimal(s) <= 255
}

/// What `Ipv4Addr::from_str` gives, as a 32-bit number: four parts joined by dots.
pub open spec fn ipv4_of(s: Seq<u8>) -> Option<u32> {
    let p = split_on(s, 46);
    if p.len() == 4 && octet_ok(p[0]) && octet_ok(p[1]) && octet_ok(p[2]) && octet_ok(p[3]) {
        Some(
            (decimal(p[0]) * 16777216 + decimal(p[1]) * 65536 + decimal(p[2]) * 256 + decimal(
                p[3],
            )) as u32,
        )
    } else {
        None
    }
}

fn parse_octet(s: &Vec<u8>) -> (r: Option<u32>)
    ensures
        match r {
            Some(v) => octet_ok(s@) && v == decimal(s@),
            None => !octet_ok(s@),
        },
{
    if s.len() < 1 || s.len() > 3 {
        return None;
    }
    if s.len() > 1 && s[0] == 48 {
        return None;
    }
    let mut v: u32 = 0;
    let mut i: usize = 0;
    while i < s.len()
        invariant
            0 <= i <= s@.len() <= 3,
            all_digits(s@.take(i as int)),
            v == decimal(s@.take(i as int)),
            i == 0 ==> v == 0,
            i == 1 ==> v < 10,
            i == 2 ==> v < 100,
            i == 3 ==> v < 1000,
        decreases s@.len() - i,
    {
        let c = s[i];
        proof {
            assert(s@.take(i + 1).drop_last() =~= s@.take(i as int));
        }
        if c < 48 || c > 57 {
            return None;
        }
        v = v * 10 + (c - 48) as u32;
        i = i + 1;
    }
    assert(s@.take(s@.len() as int) =~= s@);
    if v > 255 {
        return None;
    }
    Some(v)
}

/// Parses a dotted IPv4 address as `Ipv4Addr::from_str` does.
pub fn parse_ipv4(s: &[u8]) -> (r: Option<u32>)
    ensures
        r == ipv4_of(s@),
{
    let parts = split_bytes(s, 46);
    if parts.len() != 4 {
        return None;
    }
    let a = parse_octet(&parts[0]);
    let b = parse_octet(&parts[1]);
    let c = parse_octet(&parts[2]);
    let d = parse_octet(&parts[3]);
    proof {
        assert(pieces_view(parts@)[0] == parts@[0]@);
        assert(pieces_view(parts@)[1] == parts@[1]@);
        assert(pieces_view(parts@)[2] == parts@[2]@);
        assert(pieces_view(parts@)[3] == parts@[3]@);
    }
    match (a, b, c, d) {
        (Some(a), Some(b), Some(c), Some(d)) => Some(a * 16777216 + b * 65536 + c * 256 + d),
        _ => None,
    }
}

} // verus!
