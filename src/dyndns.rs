use vstd::prelude::*;
use vstd::string::StringSliceAdditionalSpecFns;
use vstd::utf8::encode_utf8;

use crate::error::DnsError;
use crate::parse::{ipv4_of, parse_ipv4, parse_u64, pieces_view, split_bytes, split_on, u64_of};
use crate::resolver::Resolver;
use crate::text::{lossy_text, lower_text, lowercase, utf8_lossy};
use vstd::string::StringExecFns;

verus! {

/// 2023-01-01T00:00:00Z as Unix time: the origin of update ids.
pub const C_2023_01_01: u64 = 1672531200;

/// Shortest dynamic-update packet.
pub const C_DYNDNS_MIN_LEN: usize = 51;

/// Seconds an update id may differ from the current time.
pub const C_DYNDNS_TIME_RANGE: u64 = 600;

/// Lowercase hexadecimal MD5 digest of `data`, as ASCII bytes.
pub uninterp spec fn md5_hex(data: Seq<u8>) -> Seq<u8>;

/// A lowercase hexadecimal digit.
pub open spec fn is_hex_digit(c: u8) -> bool {
    (48 <= c <= 57) || (97 <= c <= 102)
}

/// Relies on `md5::compute` and the digest's `LowerHex` format: the digest
/// of `data`, which depends on `data` alone, its 16 bytes written as two
/// lowercase hexadecimal digits each.
#[verifier::external_body]
fn md5_digest_hex(data: &[u8]) -> (r: Vec<u8>)
    ensures
        r@ == md5_hex(data@),
        r@.len() == 32,
        forall|i: int| 0 <= i < r@.len() ==> is_hex_digit(#[trigger] r@[i]),
{
    format!("{:x}", md5::compute(data)).into_bytes()
}

/// `kdns`, the first bytes of an update packet.
pub open spec fn magic() -> Seq<u8> {
    seq![107u8, 100u8, 110u8, 115u8]
}

/// `0.0.0.0`: use the sender's address.
pub open spec fn self_ip() -> Seq<u8> {
    seq![48u8, 46u8, 48u8, 46u8, 48u8, 46u8, 48u8]
}

pub open spec fn error_text() -> Seq<char> {
    seq!['e', 'r', 'r', 'o', 'r']
}

/// The packet is long enough and starts with the magic.
pub open spec fn is_dyndns(data: Seq<u8>) -> bool {
    data.len() >= C_DYNDNS_MIN_LEN && data.take(4) == magic()
}

/// The space-separated tokens of an update packet read as text.
pub open spec fn dyndns_tokens(data: Seq<u8>) -> Seq<Seq<u8>> {
    split_on(encode_utf8(lossy_text(data)), 32)
}

/// The digest an update must carry: over id, host, ip and the shared key.
pub open spec fn expected_digest(t: Seq<Seq<u8>>, key: Seq<char>) -> Seq<u8> {
    md5_hex(t[2] + t[3] + t[4] + encode_utf8(key))
}

/// `id` lies within `C_DYNDNS_TIME_RANGE` seconds of `now` counted from 2023-01-01.
pub open spec fn in_window(id: u64, now: u64) -> bool {
    let delta = now - C_2023_01_01;
    delta - C_DYNDNS_TIME_RANGE <= id <= delta + C_DYNDNS_TIME_RANGE
}

/// The address text an update binds: the sender's when the packet says `0.0.0.0`.
pub open spec fn effective_ip(t: Seq<Seq<u8>>, src_ip: Seq<u8>) -> Seq<u8> {
    if t[4] == self_ip() {
        src_ip
    } else {
        t[4]
    }
}

/// What came of a packet on the public socket.
pub enum DyndnsOutcome {
    /// Not an update packet: it is to be read as DNS.
    NotDyndns,
    /// Send `text` back; `err` says why the update was refused, if it was.
    Reply { text: String, err: Option<DnsError> },
}

pub open spec fn refused(o: DyndnsOutcome, e: DnsError) -> bool {
    match o {
        DyndnsOutcome::Reply { text, err } => text@ == error_text() && err == Some(e),
        _ => false,
    }
}

/// The reply is `error`, whatever the reason.
pub open spec fn says_error(o: DyndnsOutcome) -> bool {
    match o {
        DyndnsOutcome::Reply { text, err } => text@ == error_text() && err is Some,
        _ => false,
    }
}

fn bytes_equal(a: &[u8], b: &[u8]) -> (r: bool)
    ensures
        r == (a@ == b@),
{
    if a.len() != b.len() {
        return false;
    }
    let mut i: usize = 0;
    while i < a.len()
        invariant
            0 <= i <= a@.len(),
            a@.len() == b@.len(),
            a@.take(i as int) == b@.take(i as int),
        decreases a@.len() - i,
    {
        if a[i] != b[i] {
            return false;
        }
        proof {
            assert(a@.take(i + 1) =~= a@.take(i as int).push(a@[i as int]));
            assert(b@.take(i + 1) =~= b@.take(i as int).push(b@[i as int]));
        }
        i = i + 1;
    }
    proof {
        assert(a@.take(a@.len() as int) =~= a@);
        assert(b@.take(b@.len() as int) =~= b@);
    }
    true
}

fn append_bytes(dst: &mut Vec<u8>, src: &[u8])
    ensures
        final(dst)@ == old(dst)@ + src@,
{
    let mut i: usize = 0;
    while i < src.len()
        invariant
            0 <= i <= src@.len(),
            dst@ == old(dst)@ + src@.take(i as int),
        decreases src@.len() - i,
    {
        dst.push(src[i]);
        proof {
            assert(old(dst)@ + src@.take(i + 1) =~= old(dst)@ + src@.take(i as int) + seq![
                src@[i as int],
            ]);
        }
        i = i + 1;
    }
    proof {
        assert(src@.take(src@.len() as int) =~= src@);
    }
}

/// Whether the packet's digest is the one its id, host, ip and `key` give.
pub fn check_dyndns_md5(params: &Vec<Vec<u8>>, key: &str) -> (r: bool)
    requires
        params@.len() >= 5,
    ensures
        r == (params@[1]@ == expected_digest(pieces_view(params@), key@)),
{
    let mut data: Vec<u8> = Vec::new();
    append_bytes(&mut data, params[2].as_slice());
    append_bytes(&mut data, params[3].as_slice());
    append_bytes(&mut data, params[4].as_slice());
    append_bytes(&mut data, key.as_bytes());
    let hash = md5_digest_hex(data.as_slice());
    proof {
        let t = pieces_view(params@);
        assert(t[2] == params@[2]@ && t[3] == params@[3]@ && t[4] == params@[4]@);
        assert(data@ =~= t[2] + t[3] + t[4] + encode_utf8(key@));
    }
    bytes_equal(params[1].as_slice(), hash.as_slice())
}

/// Whether update id `id` is within the accepted window around `now`.
pub fn check_dyndns_time(id: u64, now: u64) -> (r: bool)
    ensures
        r == in_window(id, now),
{
    let t = id as u128 + C_2023_01_01 as u128;
    let n = now as u128;
    t <= n + C_DYNDNS_TIME_RANGE as u128 && t + C_DYNDNS_TIME_RANGE as u128 >= n
}

fn error_reply(e: DnsError) -> (r: DyndnsOutcome)
    ensures
        refused(r, e),
{
    let t = "error";
    proof {
        reveal_strlit("error");
        assert(t@ =~= error_text());
    }
    DyndnsOutcome::Reply { text: t.to_owned(), err: Some(e) }
}

/// Decimal digits of `n`, most significant first, without leading zeros.
pub open spec fn decimal_text(n: nat) -> Seq<u8>
    decreases n,
{
    if n < 10 {
        seq![(48 + n) as u8]
    } else {
        decimal_text(n / 10).push((48 + n % 10) as u8)
    }
}

/// Appends the decimal digits of `n` to `out`.
pub fn write_decimal(n: u64, out: &mut Vec<u8>)
    ensures
        final(out)@ == old(out)@ + decimal_text(n as nat),
    decreases n,
{
    if n >= 10 {
        write_decimal(n / 10, out);
    }
    out.push(48 + (n % 10) as u8);
    proof {
        assert(final(out)@ =~= old(out)@ + decimal_text(n as nat)) by {
            if n >= 10 {
                assert(decimal_text(n as nat) == decimal_text((n / 10) as nat).push(
                    (48 + n % 10) as u8,
                ));
            }
        }
    }
}

/// The id a client stamps on an update sent at `now`: seconds since
/// 2023-01-01.
pub fn update_id(now: u64) -> (r: u64)
    requires
        now >= C_2023_01_01,
    ensures
        r == now - C_2023_01_01,
{
    now - C_2023_01_01
}

/// The update packet a client sends: `kdns DIGEST ID HOST IP`, the digest
/// taken over the id, the host, the address and the shared key.
pub fn dyndns_packet(id: u64, host: &str, ip: &str, key: &str) -> (r: Vec<u8>)
    ensures
        r@ == magic() + seq![32u8] + md5_hex(
            decimal_text(id as nat) + host.spec_bytes() + ip.spec_bytes() + key.spec_bytes(),
        ) + seq![32u8] + decimal_text(id as nat) + seq![32u8] + host.spec_bytes() + seq![32u8]
            + ip.spec_bytes(),
{
    let mut data: Vec<u8> = Vec::new();
    write_decimal(id, &mut data);
    let ghost digits = data@;
    append_bytes(&mut data, host.as_bytes());
    append_bytes(&mut data, ip.as_bytes());
    append_bytes(&mut data, key.as_bytes());
    let digest = md5_digest_hex(data.as_slice());
    let mut out: Vec<u8> = Vec::new();
    out.push(107);
    out.push(100);
    out.push(110);
    out.push(115);
    out.push(32);
    append_bytes(&mut out, digest.as_slice());
    out.push(32);
    write_decimal(id, &mut out);
    out.push(32);
    append_bytes(&mut out, host.as_bytes());
    out.push(32);
    append_bytes(&mut out, ip.as_bytes());
    proof {
        assert(digits =~= decimal_text(id as nat));
        assert(data@ =~= decimal_text(id as nat) + host.spec_bytes() + ip.spec_bytes()
            + key.spec_bytes());
        assert(out@ =~= magic() + seq![32u8] + digest@ + seq![32u8] + decimal_text(id as nat)
            + seq![32u8] + host.spec_bytes() + seq![32u8] + ip.spec_bytes());
    }
    out
}

impl Resolver {
    /// Handles a dynamic-update packet sent from the address written in
    /// `src_ip`: checks its digest and time window, then binds its host,
    /// lowercased, to its address (the sender's for `0.0.0.0`) and replies
    /// `host ip` with the host as sent.
    /// Any refusal replies `error` and leaves the host table as it was.
    pub fn dyn_dns(&mut self, data: &[u8], src_ip: &str, now: u64) -> (r: DyndnsOutcome)
        ensures
            final(self).queries == old(self).queries,
            final(self).curr_req_id == old(self).curr_req_id,
            final(self).up_dns_addr == old(self).up_dns_addr,
            final(self).ttl == old(self).ttl,
            final(self).key == old(self).key,
            !is_dyndns(data@) ==> r is NotDyndns && final(self).hosts == old(self).hosts,
            is_dyndns(data@) && dyndns_tokens(data@).len() >= 5 && dyndns_tokens(data@)[1]
                != expected_digest(dyndns_tokens(data@), old(self).key@) ==> refused(
                r,
                DnsError::DyndnsChecksum,
            ) && final(self).hosts == old(self).hosts,
            is_dyndns(data@) && dyndns_tokens(data@).len() >= 5 && u64_of(dyndns_tokens(data@)[2])
                is Some && !in_window(u64_of(dyndns_tokens(data@)[2])->Some_0, now) ==> says_error(r)
                && final(self).hosts == old(self).hosts,
            is_dyndns(data@) ==> {
                let t = dyndns_tokens(data@);
                if t.len() < 5 {
                    refused(r, DnsError::DyndnsMalformed) && final(self).hosts == old(self).hosts
                } else if t[1] != expected_digest(t, old(self).key@) {
                    refused(r, DnsError::DyndnsChecksum) && final(self).hosts == old(self).hosts
                } else if u64_of(t[2]) is None {
                    refused(r, DnsError::DyndnsMalformed) && final(self).hosts == old(self).hosts
                } else if !in_window(u64_of(t[2])->Some_0, now) {
                    refused(r, DnsError::DyndnsTimeWindow) && final(self).hosts == old(self).hosts
                } else if ipv4_of(effective_ip(t, src_ip.spec_bytes())) is None {
                    refused(r, DnsError::BadAddress) && final(self).hosts == old(self).hosts
                } else {
                    let host = lossy_text(t[3]);
                    let ip = effective_ip(t, src_ip.spec_bytes());
                    &&& r matches DyndnsOutcome::Reply { text, err }
                    &&& err is None
                    &&& text@ == host + seq![' '] + lossy_text(ip)
                    &&& forall|n: Seq<char>| #[trigger]
                        final(self).hosts.get(n) == if n == lower_text(host) {
                            ipv4_of(ip)
                        } else {
                            old(self).hosts.get(n)
                        }
                }
            },
    {
        if data.len() < C_DYNDNS_MIN_LEN || data[0] != 107 || data[1] != 100 || data[2] != 110
            || data[3] != 115 {
            proof {
                if data@.len() >= C_DYNDNS_MIN_LEN {
                    assert(data@.take(4)[0] == data@[0] && data@.take(4)[1] == data@[1]);
                    assert(data@.take(4)[2] == data@[2] && data@.take(4)[3] == data@[3]);
                }
            }
            return DyndnsOutcome::NotDyndns;
        }
        proof {
            assert(data@.take(4) =~= magic());
        }
        let text = utf8_lossy(data);
        let params = split_bytes(text.as_str().as_bytes(), 32);
        let ghost t = pieces_view(params@);
        if params.len() < 5 {
            return error_reply(DnsError::DyndnsMalformed);
        }
        if !check_dyndns_md5(&params, self.key.as_str()) {
            return error_reply(DnsError::DyndnsChecksum);
        }
        proof {
            assert(t[1] == params@[1]@ && t[2] == params@[2]@);
            assert(t[3] == params@[3]@ && t[4] == params@[4]@);
        }
        let id = match parse_u64(params[2].as_slice()) {
            Some(id) => id,
            None => {
                return error_reply(DnsError::DyndnsMalformed);
            },
        };
        if !check_dyndns_time(id, now) {
            return error_reply(DnsError::DyndnsTimeWindow);
        }
        let zero: [u8; 7] = [48, 46, 48, 46, 48, 46, 48];
        proof {
            assert(zero@ =~= self_ip());
        }
        let use_src = bytes_equal(params[4].as_slice(), zero.as_slice());
        let ip_bytes: &[u8] = if use_src {
            src_ip.as_bytes()
        } else {
            params[4].as_slice()
        };
        let addr = match parse_ipv4(ip_bytes) {
            Some(a) => a,
            None => {
                return error_reply(DnsError::BadAddress);
            },
        };
        let host = utf8_lossy(params[3].as_slice());
        let ip_text = utf8_lossy(ip_bytes);
        self.hosts.register(lowercase(host.as_str()), addr);
        let mut reply = host;
        proof {
            reveal_strlit(" ");
        }
        reply.append(" ");
        reply.append(ip_text.as_str());
        DyndnsOutcome::Reply { text: reply, err: None }
    }
}

} // verus!
