use vstd::prelude::*;
use vstd::string::StringSliceAdditionalSpecFns;
use vstd::utf8::{decode_utf8, is_ascii_chars, valid_utf8};

verus! {

/// What `String::from_utf8_lossy` makes of a byte string.
pub uninterp spec fn lossy_of(b: Seq<u8>) -> Seq<char>;

/// What `str::to_lowercase` makes of a text.
pub uninterp spec fn lower_of(s: Seq<char>) -> Seq<char>;

pub open spec fn is_ascii_bytes(b: Seq<u8>) -> bool {
    forall|i: int| 0 <= i < b.len() ==> #[trigger] b[i] < 128
}

/// ASCII bytes read as characters.
pub open spec fn ascii_chars(b: Seq<u8>) -> Seq<char> {
    b.map_values(|c: u8| c as char)
}

/// ASCII text that lowercasing leaves as it is: no capital letters.
pub open spec fn is_lower_ascii(s: Seq<char>) -> bool {
    forall|i: int|
        0 <= i < s.len() ==> (#[trigger] s[i] as u32) < 128 && !('A' <= s[i] && s[i] <= 'Z')
}

/// An ASCII capital letter made small; any other character unchanged.
pub open spec fn ascii_lower_char(c: char) -> char {
    if 'A' <= c && c <= 'Z' {
        ((c as u8) + 32) as u8 as char
    } else {
        c
    }
}

/// ASCII text with its capital letters made small.
pub open spec fn ascii_lower(s: Seq<char>) -> Seq<char> {
    s.map_values(|c: char| ascii_lower_char(c))
}

/// What `String::from_utf8_lossy` gives: ASCII and other valid UTF-8 are
/// decoded as they stand.
pub open spec fn lossy_text(b: Seq<u8>) -> Seq<char> {
    if is_ascii_bytes(b) {
        ascii_chars(b)
    } else if valid_utf8(b) {
        decode_utf8(b)
    } else {
        lossy_of(b)
    }
}

/// What `str::to_lowercase` gives: on ASCII text, capitals made small.
pub open spec fn lower_text(s: Seq<char>) -> Seq<char> {
    if is_ascii_chars(s) {
        ascii_lower(s)
    } else {
        lower_of(s)
    }
}

/// Relies on `String::from_utf8_lossy`: the result depends on the bytes
/// alone, and valid UTF-8 (ASCII among it) is decoded as it stands.
#[verifier::external_body]
pub(crate) fn utf8_lossy(b: &[u8]) -> (r: String)
    ensures
        r@ == if is_ascii_bytes(b@) {
            ascii_chars(b@)
        } else if valid_utf8(b@) {
            decode_utf8(b@)
        } else {
            lossy_of(b@)
        },
{
    String::from_utf8_lossy(b).into_owned()
}

/// Relies on `str::to_lowercase`: the result depends on the text alone, and
/// on ASCII text it turns `A`-`Z` into `a`-`z` and keeps the rest.
#[verifier::external_body]
pub(crate) fn lowercase(s: &str) -> (r: String)
    ensures
        r@ == if is_ascii_chars(s@) {
            ascii_lower(s@)
        } else {
            lower_of(s@)
        },
{
    s.to_lowercase()
}

/// The bytes `t` end the bytes `s`.
pub open spec fn is_suffix(t: Seq<u8>, s: Seq<u8>) -> bool {
    t.len() <= s.len() && s.subrange(s.len() - t.len(), s.len() as int) == t
}

/// Whether the text `s` ends with the text `t`, compared byte by byte.
pub fn ends_with(s: &str, t: &str) -> (r: bool)
    ensures
        r == is_suffix(t.spec_bytes(), s.spec_bytes()),
{
    let sb = s.as_bytes();
    let tb = t.as_bytes();
    if tb.len() > sb.len() {
        return false;
    }
    let off = sb.len() - tb.len();
    let mut i: usize = 0;
    while i < tb.len()
        invariant
            0 <= i <= tb@.len(),
            sb@ == s.spec_bytes(),
            tb@ == t.spec_bytes(),
            sb@.len() == sb.len(),
            tb@.len() == tb.len(),
            off + tb@.len() == sb@.len(),
            forall|k: int| 0 <= k < i ==> sb@[off + k] == tb@[k],
        decreases tb@.len() - i,
    {
        if sb[off + i] != tb[i] {
            proof {
                assert(sb@.subrange(off as int, sb@.len() as int)[i as int] != tb@[i as int]);
            }
            return false;
        }
        i = i + 1;
    }
    proof {
        assert(sb@.subrange(off as int, sb@.len() as int) =~= tb@);
    }
    true
}

} // verus!
