use vstd::prelude::*;
use vstd::utf8::{decode_utf8, valid_utf8};

verus! {

/// Why a hosts file could not be read.
#[derive(Debug, Clone, Copy, PartialEq, Eq, Structural)]
pub enum HostsError {
    /// A line is not `IP NAME`, optionally followed by a comment.
    Format { line: usize },
    /// An address or a name is not UTF-8.
    NotUtf8,
}

/// Where the lexer stands within a line.
#[derive(Debug, Clone, Copy, PartialEq, Eq, Structural)]
pub enum Lex {
    Start,
    Comment,
    Ip,
    IpEnd,
    Host,
    HostEnd,
    LineComment,
    FmtError,
}

pub open spec fn is_blank(c: u8) -> bool {
    c == 9 || c == 32
}

pub open spec fn is_eol(c: u8) -> bool {
    c == 13 || c == 10
}

/// The state after reading `c` in state `s`, and whether the line ends the
/// scan there (the character is then not consumed).
pub open spec fn lex_step(s: Lex, c: u8) -> (Lex, bool) {
    match s {
        Lex::Start => if is_blank(c) || is_eol(c) {
            (Lex::Start, false)
        } else if c == 35 {
            (Lex::Comment, false)
        } else {
            (Lex::Ip, false)
        },
        Lex::Comment => if is_eol(c) {
            (Lex::Start, false)
        } else {
            (Lex::Comment, false)
        },
        Lex::Ip => if is_blank(c) {
            (Lex::IpEnd, false)
        } else if is_eol(c) || c == 35 {
            (Lex::FmtError, true)
        } else {
            (Lex::Ip, false)
        },
        Lex::IpEnd => if is_blank(c) {
            (Lex::IpEnd, false)
        } else if is_eol(c) || c == 35 {
            (Lex::FmtError, true)
        } else {
            (Lex::Host, false)
        },
        Lex::Host => if is_blank(c) {
            (Lex::HostEnd, false)
        } else if is_eol(c) {
            (Lex::HostEnd, true)
        } else if c == 35 {
            (Lex::LineComment, false)
        } else {
            (Lex::Host, false)
        },
        Lex::HostEnd => if is_blank(c) {
            (Lex::HostEnd, false)
        } else if is_eol(c) {
            (Lex::HostEnd, true)
        } else if c == 35 {
            (Lex::LineComment, false)
        } else {
            (Lex::FmtError, true)
        },
        Lex::LineComment => if is_eol(c) {
            (Lex::LineComment, true)
        } else {
            (Lex::LineComment, false)
        },
        Lex::FmtError => (Lex::FmtError, true),
    }
}

/// The state of a scan and the bounds it has marked: where the address
/// starts and ends, where the name starts and ends.
pub struct Scan {
    pub state: Lex,
    pub pos: int,
    pub ip_begin: int,
    pub ip_end: int,
    pub host_begin: int,
    pub host_end: int,
}

/// One character read: the new state, and the bound the transition marks.
pub open spec fn scan_step(d: Seq<u8>, s: Scan) -> Scan {
    let c = d[s.pos];
    let (t, _) = lex_step(s.state, c);
    Scan {
        state: t,
        pos: s.pos,
        ip_begin: if s.state == Lex::Start && t == Lex::Ip {
            s.pos
        } else {
            s.ip_begin
        },
        ip_end: if s.state == Lex::Ip && t == Lex::IpEnd {
            s.pos
        } else {
            s.ip_end
        },
        host_begin: if s.state == Lex::IpEnd && t == Lex::Host {
            s.pos
        } else {
            s.host_begin
        },
        host_end: if s.state == Lex::Host && t != Lex::Host {
            s.pos
        } else {
            s.host_end
        },
    }
}

/// Runs the lexer from `s` until the data ends or a line ends the scan.
pub open spec fn scan(d: Seq<u8>, s: Scan) -> Scan
    decreases d.len() - s.pos,
{
    if s.pos < 0 || s.pos >= d.len() {
        s
    } else {
        let n = scan_step(d, s);
        if lex_step(s.state, d[s.pos]).1 {
            n
        } else {
            scan(d, Scan { pos: s.pos + 1, ..n })
        }
    }
}

/// Whether byte `i` ends a line: a `\n`, or a `\r` with a byte after it
/// that is not `\n`.
pub open spec fn breaks_line(d: Seq<u8>, i: int) -> bool {
    d[i] == 10 || (d[i] == 13 && i + 1 < d.len() && d[i + 1] != 10)
}

/// Line breaks among the first `k` bytes.
pub open spec fn breaks_before(d: Seq<u8>, k: int) -> nat
    decreases k,
{
    if k <= 0 {
        0
    } else {
        breaks_before(d, k - 1) + if breaks_line(d, k - 1) {
            1nat
        } else {
            0nat
        }
    }
}

/// The 1-based line of position `pos` (at most the end of the data).
pub open spec fn line_of(d: Seq<u8>, pos: int) -> int {
    let m = if pos < d.len() {
        pos
    } else {
        d.len() as int
    };
    1 + breaks_before(d, m) as int
}

/// Relies on `std::str::from_utf8`: the text `b` encodes, if it is UTF-8.
#[verifier::external_body]
fn utf8_text(b: &[u8]) -> (r: Option<String>)
    ensures
        r is Some <==> valid_utf8(b@),
        r is Some ==> r->Some_0@ == decode_utf8(b@),
{
    std::str::from_utf8(b).ok().map(|s| s.to_owned())
}

/// The line reported for a format error found at `p`.
pub open spec fn error_line(d: Seq<u8>, p: int) -> usize {
    if d.len() < usize::MAX {
        line_of(d, p) as usize
    } else {
        0
    }
}

/// What `next` returns for the data `d` read from `pos`, and where it
/// leaves the cursor: nothing at the end of the data; an error for a line
/// that is not `IP NAME`, naming its line; otherwise the name and the
/// address of the line, the cursor past it.
pub open spec fn next_outcome(
    d: Seq<u8>,
    pos: int,
    r: Result<Option<(String, String)>, HostsError>,
    new_pos: int,
) -> bool {
    let s = scan_from(d, pos);
    match s.state {
        Lex::Start | Lex::Comment => r == Ok::<Option<(String, String)>, HostsError>(None)
            && new_pos == pos,
        Lex::Ip | Lex::IpEnd | Lex::FmtError => r == Err::<Option<(String, String)>, HostsError>(
            HostsError::Format {
                line: error_line(
                    d,
                    if s.pos == d.len() {
                        s.pos
                    } else {
                        s.pos - 1
                    },
                ),
            },
        ) && new_pos == pos,
        _ => {
            let host_end = if s.state == Lex::Host {
                s.pos
            } else {
                s.host_end
            };
            let ip = d.subrange(s.ip_begin, s.ip_end);
            let host = d.subrange(s.host_begin, host_end);
            &&& new_pos == if s.pos == d.len() {
                s.pos
            } else {
                s.pos + 1
            }
            &&& if valid_utf8(ip) && valid_utf8(host) {
                &&& r is Ok
                &&& r->Ok_0 is Some
                &&& r->Ok_0->Some_0.0@ == decode_utf8(host)
                &&& r->Ok_0->Some_0.1@ == decode_utf8(ip)
            } else {
                r == Err::<Option<(String, String)>, HostsError>(HostsError::NotUtf8)
            }
        },
    }
}

/// The bounds a scan has marked lie in order within the data.
pub open spec fn marks_ok(d: Seq<u8>, s: Scan) -> bool {
    &&& 0 <= s.pos <= d.len()
    &&& (s.state == Lex::Ip ==> 0 <= s.ip_begin < s.pos)
    &&& (s.state == Lex::IpEnd || s.state == Lex::Host || s.state == Lex::HostEnd || s.state
        == Lex::LineComment ==> 0 <= s.ip_begin <= s.ip_end < s.pos)
    &&& (s.state == Lex::Host ==> s.ip_end < s.host_begin < s.pos)
    &&& (s.state == Lex::HostEnd || s.state == Lex::LineComment ==> s.ip_end < s.host_begin
        <= s.host_end <= s.pos)
    &&& (s.state == Lex::FmtError ==> s.pos > 0)
}

/// A hosts file, read one `IP NAME` line at a time from `pos`.
pub struct HostsConfig {
    pub data: Vec<u8>,
    pub pos: usize,
}

/// The scan a call to `next` makes from `pos`.
pub open spec fn scan_from(d: Seq<u8>, pos: int) -> Scan {
    scan(
        d,
        Scan { state: Lex::Start, pos, ip_begin: 0, ip_end: 0, host_begin: 0, host_end: 0 },
    )
}

impl HostsConfig {
    pub fn from_bytes(data: Vec<u8>) -> (r: HostsConfig)
        ensures
            r.data == data,
            r.pos == 0,
    {
        HostsConfig { data, pos: 0 }
    }

    /// The 1-based line number of byte `pos`.
    pub fn location_line(data: &[u8], pos: usize) -> (r: usize)
        requires
            data@.len() < usize::MAX,
        ensures
            r == line_of(data@, pos as int),
    {
        let len = data.len();
        let max_pos = if pos < len {
            pos
        } else {
            len
        };
        let mut line: usize = 1;
        let mut i: usize = 0;
        while i < max_pos
            invariant
                0 <= i <= max_pos <= len,
                len == data@.len(),
                len < usize::MAX,
                max_pos == if (pos as int) < len { pos as int } else { len as int },
                line == 1 + breaks_before(data@, i as int),
                line <= i + 1,
            decreases max_pos - i,
        {
            let c = data[i];
            if c == 10 || (c == 13 && (i + 1 < len && data[i + 1] != 10)) {
                line = line + 1;
            }
            i = i + 1;
        }
        line
    }

    /// Reads the next `IP NAME` line from the cursor: `(name, address)`,
    /// or nothing at the end of the data.
    pub fn next(&mut self) -> (r: Result<Option<(String, String)>, HostsError>)
        ensures
            final(self).data == old(self).data,
            next_outcome(old(self).data@, old(self).pos as int, r, final(self).pos as int),
    {
        let len = self.data.len();
        let ghost d = self.data@;
        let mut pos = self.pos;
        let mut status = Lex::Start;
        let mut ip_begin: usize = 0;
        let mut ip_end: usize = 0;
        let mut host_begin: usize = 0;
        let mut host_end: usize = 0;
        if pos > len {
            return Ok(None);
        }
        loop
            invariant_except_break
                status != Lex::FmtError,
            invariant
                d == self.data@,
                len == d.len(),
                *self == *old(self),
                pos <= len,
                marks_ok(
                    d,
                    Scan {
                        state: status,
                        pos: pos as int,
                        ip_begin: ip_begin as int,
                        ip_end: ip_end as int,
                        host_begin: host_begin as int,
                        host_end: host_end as int,
                    },
                ),
                scan(
                    d,
                    Scan {
                        state: status,
                        pos: pos as int,
                        ip_begin: ip_begin as int,
                        ip_end: ip_end as int,
                        host_begin: host_begin as int,
                        host_end: host_end as int,
                    },
                ) == scan_from(d, old(self).pos as int),
            ensures
                d == self.data@,
                *self == *old(self),
                pos <= len,
                marks_ok(
                    d,
                    Scan {
                        state: status,
                        pos: pos as int,
                        ip_begin: ip_begin as int,
                        ip_end: ip_end as int,
                        host_begin: host_begin as int,
                        host_end: host_end as int,
                    },
                ),
                (Scan {
                    state: status,
                    pos: pos as int,
                    ip_begin: ip_begin as int,
                    ip_end: ip_end as int,
                    host_begin: host_begin as int,
                    host_end: host_end as int,
                }) == scan_from(d, old(self).pos as int),
                status == Lex::Host ==> pos == len,
                (status == Lex::Start || status == Lex::Comment || status == Lex::Ip || status
                    == Lex::IpEnd) ==> pos == len,
            decreases len - pos,
        {
            if pos >= len {
                break;
            }
            let c = self.data[pos];
            let blank = c == 9 || c == 32;
            let eol = c == 13 || c == 10;
            let mut stop = false;
            match status {
                Lex::Start => {
                    if blank || eol {
                    } else if c == 35 {
                        status = Lex::Comment;
                    } else {
                        status = Lex::Ip;
                        ip_begin = pos;
                    }
                },
                Lex::Comment => {
                    if eol {
                        status = Lex::Start;
                    }
                },
                Lex::Ip => {
                    if blank {
                        status = Lex::IpEnd;
                        ip_end = pos;
                    } else if eol || c == 35 {
                        status = Lex::FmtError;
                        stop = true;
                    }
                },
                Lex::IpEnd => {
                    if blank {
                    } else if eol || c == 35 {
                        status = Lex::FmtError;
                        stop = true;
                    } else {
                        status = Lex::Host;
                        host_begin = pos;
                    }
                },
                Lex::Host => {
                    if blank {
                        status = Lex::HostEnd;
                        host_end = pos;
                    } else if eol {
                        status = Lex::HostEnd;
                        host_end = pos;
                        stop = true;
                    } else if c == 35 {
                        status = Lex::LineComment;
                        host_end = pos;
                    }
                },
                Lex::HostEnd => {
                    if blank {
                    } else if eol {
                        stop = true;
                    } else if c == 35 {
                        status = Lex::LineComment;
                    } else {
                        status = Lex::FmtError;
                        stop = true;
                    }
                },
                Lex::LineComment => {
                    if eol {
                        stop = true;
                    }
                },
                Lex::FmtError => {
                    stop = true;
                },
            }
            if stop {
                break;
            }
            pos = pos + 1;
        }
        match status {
            Lex::Start | Lex::Comment => {
                return Ok(None);
            },
            Lex::Ip | Lex::IpEnd | Lex::FmtError => {
                let p = if pos == len {
                    pos
                } else {
                    pos - 1
                };
                let line = if len < usize::MAX {
                    Self::location_line(self.data.as_slice(), p)
                } else {
                    0
                };
                return Err(HostsError::Format { line });
            },
            Lex::Host => {
                host_end = pos;
            },
            _ => {},
        }
        self.pos = if pos == len {
            pos
        } else {
            pos + 1
        };
        let ip = utf8_text(&self.data.as_slice()[ip_begin..ip_end]);
        let host = utf8_text(&self.data.as_slice()[host_begin..host_end]);
        match (ip, host) {
            (Some(ip), Some(host)) => Ok(Some((host, ip))),
            _ => Err(HostsError::NotUtf8),
        }
    }
}

} // verus!
