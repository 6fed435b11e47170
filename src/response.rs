//! Status lines of the IMAP server: the tagged completion line of a command
//! (`OK`, `NO`, `BAD`, `PREAUTH`, `BYE`) with its response code, the split of
//! a response into CRLF-terminated lines, and the test of untagged lines
//! against the categories a command waits for.
use crate::bytes::{
    digits_end, ends_with, find_from, find_spec, has_prefix, has_prefix_at, has_suffix,
    parse_decimal, rfind_before, rfind_below, skip_digits, skip_spaces, spaces_end, starts_with,
    starts_with_at, text_from_bytes, trim_bounds, trimmed, decimal_at,
};
use crate::error::MeliError;
use vstd::prelude::*;
use vstd::string::{StringExecFns, StringSliceAdditionalSpecFns};
use vstd::utf8::{decode_utf8, valid_utf8};

verus! {

broadcast use vstd::string::group_string_axioms;

/// `t` holds the text of the bytes `b` (whenever `b` is valid UTF-8).
pub open spec fn text_of(t: String, b: Seq<u8>) -> bool {
    valid_utf8(b) ==> t@ == decode_utf8(b)
}

/// A set of untagged-response categories, one bit each.
#[derive(Clone, Copy, Debug, PartialEq, Eq, Structural)]
pub struct RequiredResponses {
    pub bits: u64,
}

pub const CAPABILITY: u64 = 1;
pub const BYE: u64 = 2;
pub const FLAGS: u64 = 4;
pub const EXISTS: u64 = 8;
pub const RECENT: u64 = 16;
pub const UNSEEN: u64 = 32;
pub const PERMANENTFLAGS: u64 = 64;
pub const UIDNEXT: u64 = 128;
pub const UIDVALIDITY: u64 = 256;
pub const LIST: u64 = 512;
pub const LSUB: u64 = 1024;
pub const STATUS: u64 = 2048;
pub const EXPUNGE: u64 = 4096;
pub const SEARCH: u64 = 8192;
pub const FETCH: u64 = 16384;
pub const SELECT_REQUIRED: u64 = FLAGS | EXISTS | RECENT | UNSEEN | PERMANENTFLAGS | UIDNEXT
    | UIDVALIDITY;

/// After the message number, blanks and then `FETCH`.
pub open spec fn is_fetch_line(rest: Seq<u8>) -> bool {
    let p = digits_end(rest, 0);
    has_prefix_at(rest, spaces_end(rest, p), "FETCH".spec_bytes())
}

/// Does the untagged line `l` belong to one of the categories in `bits`?
pub open spec fn check_spec(bits: u64, l: Seq<u8>) -> bool {
    let star = "* ".spec_bytes();
    if !has_prefix(l, star) {
        false
    } else {
        let r = l.subrange(star.len() as int, l.len() as int);
        ||| (bits & CAPABILITY != 0 && has_prefix(r, "CAPABILITY".spec_bytes()))
        ||| (bits & BYE != 0 && has_prefix(r, "BYE".spec_bytes()))
        ||| (bits & FLAGS != 0 && has_prefix(r, "FLAGS".spec_bytes()))
        ||| (bits & EXISTS != 0 && has_suffix(r, "EXISTS\r\n".spec_bytes()))
        ||| (bits & RECENT != 0 && has_suffix(r, "RECENT\r\n".spec_bytes()))
        ||| (bits & UNSEEN != 0 && has_prefix(r, "UNSEEN".spec_bytes()))
        ||| (bits & PERMANENTFLAGS != 0 && has_prefix(r, "PERMANENTFLAGS".spec_bytes()))
        ||| (bits & UIDNEXT != 0 && has_prefix(r, "UIDNEXT".spec_bytes()))
        ||| (bits & UIDVALIDITY != 0 && has_prefix(r, "UIDVALIDITY".spec_bytes()))
        ||| (bits & LIST != 0 && has_prefix(r, "LIST".spec_bytes()))
        ||| (bits & LSUB != 0 && has_prefix(r, "LSUB".spec_bytes()))
        ||| (bits & STATUS != 0 && has_prefix(r, "STATUS".spec_bytes()))
        ||| (bits & EXPUNGE != 0 && has_suffix(r, "EXPUNGE\r\n".spec_bytes()))
        ||| (bits & SEARCH != 0 && has_prefix(r, "SEARCH".spec_bytes()))
        ||| (bits & FETCH != 0 && is_fetch_line(r))
    }
}

impl RequiredResponses {
    pub fn new(bits: u64) -> (r: RequiredResponses)
        ensures
            r.bits == bits,
    {
        RequiredResponses { bits }
    }

    pub fn intersects(&self, other: u64) -> (r: bool)
        ensures
            r == (self.bits & other != 0),
    {
        self.bits & other != 0
    }

    /// Tests whether the untagged line `line` is of one of the categories
    /// in this set.
    pub fn check(&self, line: &str) -> (r: bool)
        ensures
            r == check_spec(self.bits, line.spec_bytes()),
    {
        let l = line.as_bytes();
        if !starts_with(l, "* ".as_bytes()) {
            return false;
        }
        proof {
            reveal_strlit("* ");
            assert(vstd::string::is_ascii("* "));
        }
        let r = &l[2..l.len()];
        let c01 = self.intersects(CAPABILITY) && starts_with(r, "CAPABILITY".as_bytes());
        let c02 = self.intersects(BYE) && starts_with(r, "BYE".as_bytes());
        let c03 = self.intersects(FLAGS) && starts_with(r, "FLAGS".as_bytes());
        let c04 = self.intersects(EXISTS) && ends_with(r, "EXISTS\r\n".as_bytes());
        let c05 = self.intersects(RECENT) && ends_with(r, "RECENT\r\n".as_bytes());
        let c06 = self.intersects(UNSEEN) && starts_with(r, "UNSEEN".as_bytes());
        let c07 = self.intersects(PERMANENTFLAGS) && starts_with(
            r,
            "PERMANENTFLAGS".as_bytes(),
        );
        let c08 = self.intersects(UIDNEXT) && starts_with(r, "UIDNEXT".as_bytes());
        let c09 = self.intersects(UIDVALIDITY) && starts_with(r, "UIDVALIDITY".as_bytes());
        let c10 = self.intersects(LIST) && starts_with(r, "LIST".as_bytes());
        let c11 = self.intersects(LSUB) && starts_with(r, "LSUB".as_bytes());
        let c12 = self.intersects(STATUS) && starts_with(r, "STATUS".as_bytes());
        let c13 = self.intersects(EXPUNGE) && ends_with(r, "EXPUNGE\r\n".as_bytes());
        let c14 = self.intersects(SEARCH) && starts_with(r, "SEARCH".as_bytes());
        let c15 = self.intersects(FETCH) && {
            let p = skip_digits(r, 0);
            let q = skip_spaces(r, p);
            starts_with_at(r, q, "FETCH".as_bytes())
        };
        c01 || c02 || c03 || c04 || c05 || c06 || c07 || c08 || c09 || c10 || c11 || c12 || c13
            || c14 || c15
    }
}

/// Where the last line of `s` starts: lines end with CRLF, and a trailing
/// CRLF closes the last line rather than opening an empty one.
pub open spec fn last_line_start(s: Seq<u8>) -> int {
    match rfind_before(s, "\r\n".spec_bytes(), s.len() - 2) {
        Some(j) => j + 2,
        None => 0,
    }
}

/// The position after the first CRLF at or after `i`, or the end of `s`.
pub open spec fn line_end(s: Seq<u8>, i: int) -> int {
    match find_spec(s, i, "\r\n".spec_bytes()) {
        Some(j) => j + 2,
        None => s.len() as int,
    }
}

/// Cursor over the CRLF-terminated lines of a response; each line keeps its
/// CRLF.
pub struct ImapLineIterator<'a> {
    pub slice: &'a [u8],
    pub pos: usize,
}

pub trait ImapLineSplit {
    fn split_rn(&self) -> ImapLineIterator<'_>;
}

impl ImapLineSplit for str {
    fn split_rn(&self) -> (r: ImapLineIterator<'_>) {
        ImapLineIterator { slice: self.as_bytes(), pos: 0 }
    }
}

impl<'a> ImapLineIterator<'a> {
    pub fn new(slice: &'a [u8]) -> (r: ImapLineIterator<'a>)
        ensures
            r.slice@ == slice@,
            r.pos == 0,
    {
        ImapLineIterator { slice, pos: 0 }
    }

    /// The next line, with its CRLF; `None` at the end of the input.
    pub fn next(&mut self) -> (r: Option<&'a [u8]>)
        requires
            old(self).pos <= old(self).slice@.len(),
        ensures
            final(self).slice == old(self).slice,
            final(self).pos <= final(self).slice@.len(),
            old(self).pos == old(self).slice@.len() ==> r.is_none() && final(self).pos == old(
                self,
            ).pos,
            old(self).pos < old(self).slice@.len() ==> {
                let e = line_end(old(self).slice@, old(self).pos as int);
                &&& final(self).pos == e
                &&& r matches Some(l) && l@ == old(self).slice@.subrange(old(self).pos as int, e)
            },
    {
        if self.pos == self.slice.len() {
            return None;
        }
        let start = self.pos;
        let end = match find_from(self.slice, start, "\r\n".as_bytes()) {
            Some(j) => {
                proof {
                    reveal_strlit("\r\n");
                    assert(vstd::string::is_ascii("\r\n"));
                }
                j + 2
            },
            None => self.slice.len(),
        };
        self.pos = end;
        Some(&self.slice[start..end])
    }
}

/// The response code or human-readable text of a status line.
#[derive(Debug, PartialEq)]
pub enum ResponseCode {
    /// Text the user must be shown.
    Alert(String),
    /// The charset of a SEARCH is not supported; the supported ones may follow.
    Badcharset(Option<String>),
    /// A capability list follows.
    Capability,
    /// The server failed to parse a message's headers.
    Parse(String),
    /// The flags the client can change permanently.
    Permanentflags(String),
    /// The mailbox is selected read-only.
    ReadOnly,
    /// The mailbox is selected read-write.
    ReadWrite,
    /// The target mailbox does not exist; creating it may help.
    Trycreate,
    /// The next unique identifier value.
    Uidnext(usize),
    /// The unique identifier validity value.
    Uidvalidity(usize),
    /// The number of the first message without the `\Seen` flag.
    Unseen(usize),
}

/// The number after a response-code keyword that ends at `k`, or 0 where
/// none can be read.
pub open spec fn code_number(w: Seq<u8>, k: int) -> nat {
    match decimal_at(w, spaces_end(w, k)) {
        Some((v, _)) => v,
        None => 0,
    }
}

/// The free text of a bracketed code that is not recognised: what follows
/// `"] "`, or everything where that is missing.
pub open spec fn bracket_text(v: Seq<u8>, w: Seq<u8>) -> Seq<u8> {
    match find_spec(w, 0, "] ".spec_bytes()) {
        Some(pos) => trimmed(w.subrange(pos + 1, w.len() as int)),
        None => trimmed(v),
    }
}

/// `c` is the response code of the text `v` that follows a status word.
pub open spec fn code_from(v: Seq<u8>, c: ResponseCode) -> bool {
    if !has_prefix(v, "[".spec_bytes()) {
        c matches ResponseCode::Alert(t) && text_of(t, trimmed(v))
    } else {
        let w = v.subrange(1, v.len() as int);
        if has_prefix(w, "BADCHARSET".spec_bytes()) {
            c matches ResponseCode::Badcharset(o) && match find_spec(w, 0, "(".spec_bytes()) {
                Some(pos) => o matches Some(t) && text_of(
                    t,
                    trimmed(w.subrange(pos + 1, w.len() as int)),
                ),
                None => o is None,
            }
        } else if has_prefix(w, "READ-ONLY".spec_bytes()) {
            c == ResponseCode::ReadOnly
        } else if has_prefix(w, "READ-WRITE".spec_bytes()) {
            c == ResponseCode::ReadWrite
        } else if has_prefix(w, "TRYCREATE".spec_bytes()) {
            c == ResponseCode::Trycreate
        } else if has_prefix(w, "UIDNEXT".spec_bytes()) {
            c == ResponseCode::Uidnext(code_number(w, 7) as usize)
        } else if has_prefix(w, "UIDVALIDITY".spec_bytes()) {
            c == ResponseCode::Uidvalidity(code_number(w, 11) as usize)
        } else if has_prefix(w, "UNSEEN".spec_bytes()) {
            c == ResponseCode::Unseen(code_number(w, 6) as usize)
        } else {
            c matches ResponseCode::Alert(t) && text_of(t, bracket_text(v, w))
        }
    }
}

/// Reads the number after a response-code keyword that ends at `k`.
fn read_code_number(w: &[u8], k: usize) -> (r: usize)
    requires
        k <= w@.len(),
    ensures
        r == code_number(w@, k as int),
{
    let a = skip_spaces(w, k);
    match parse_decimal(w, a) {
        Some((v, _)) => v,
        None => 0,
    }
}

fn trimmed_text(s: &[u8]) -> (r: String)
    ensures
        text_of(r, trimmed(s@)),
{
    let (a, b) = trim_bounds(s);
    text_from_bytes(&s[a..b])
}

impl ResponseCode {
    /// Reads the response code of the text that follows a status word.
    pub fn from(val: &[u8]) -> (r: ResponseCode)
        ensures
            code_from(val@, r),
    {
        if !starts_with(val, "[".as_bytes()) {
            return ResponseCode::Alert(trimmed_text(val));
        }
        proof {
            reveal_strlit("[");
            assert(vstd::string::is_ascii("["));
        }
        let w = &val[1..val.len()];
        if starts_with(w, "BADCHARSET".as_bytes()) {
            match find_from(w, 0, "(".as_bytes()) {
                Some(pos) => {
                    proof {
                        reveal_strlit("(");
                        assert(vstd::string::is_ascii("("));
                    }
                    ResponseCode::Badcharset(Some(trimmed_text(&w[pos + 1..w.len()])))
                },
                None => ResponseCode::Badcharset(None),
            }
        } else if starts_with(w, "READ-ONLY".as_bytes()) {
            ResponseCode::ReadOnly
        } else if starts_with(w, "READ-WRITE".as_bytes()) {
            ResponseCode::ReadWrite
        } else if starts_with(w, "TRYCREATE".as_bytes()) {
            ResponseCode::Trycreate
        } else if starts_with(w, "UIDNEXT".as_bytes()) {
            proof {
                reveal_strlit("UIDNEXT");
                assert(vstd::string::is_ascii("UIDNEXT"));
            }
            ResponseCode::Uidnext(read_code_number(w, 7))
        } else if starts_with(w, "UIDVALIDITY".as_bytes()) {
            proof {
                reveal_strlit("UIDVALIDITY");
                assert(vstd::string::is_ascii("UIDVALIDITY"));
            }
            ResponseCode::Uidvalidity(read_code_number(w, 11))
        } else if starts_with(w, "UNSEEN".as_bytes()) {
            proof {
                reveal_strlit("UNSEEN");
                assert(vstd::string::is_ascii("UNSEEN"));
            }
            ResponseCode::Unseen(read_code_number(w, 6))
        } else {
            match find_from(w, 0, "] ".as_bytes()) {
                Some(pos) => {
                    proof {
                        reveal_strlit("] ");
                        assert(vstd::string::is_ascii("] "));
                    }
                    ResponseCode::Alert(trimmed_text(&w[pos + 1..w.len()]))
                },
                None => ResponseCode::Alert(trimmed_text(val)),
            }
        }
    }
}

/// The status of a tagged completion line.
#[derive(Debug, PartialEq)]
pub enum ImapResponse {
    Okay(ResponseCode),
    No(ResponseCode),
    Bad(ResponseCode),
    Preauth(ResponseCode),
    Bye(ResponseCode),
}

/// The status text of the last line of `s`: what follows the tag, trimmed,
/// without a trailing timing note `(... secs).`.
pub open spec fn status_text(s: Seq<u8>) -> Option<Seq<u8>> {
    let l = s.subrange(last_line_start(s), s.len() as int);
    match find_spec(l, 0, " ".spec_bytes()) {
        None => None,
        Some(p) => {
            let t = trimmed(l.subrange(p + 1, l.len() as int));
            if has_suffix(t, " secs).".spec_bytes()) {
                match rfind_before(t, "(".spec_bytes(), t.len() as int) {
                    Some(q) => Some(t.subrange(0, q)),
                    None => Some(t),
                }
            } else {
                Some(t)
            }
        },
    }
}

/// What follows the status word `kw` and one blank.
pub open spec fn after_word(t: Seq<u8>, kw: Seq<u8>) -> Seq<u8> {
    let k: int = if kw.len() + 1 <= t.len() {
        kw.len() + 1 as int
    } else {
        t.len() as int
    };
    t.subrange(k, t.len() as int)
}

/// `r` is the status line `s` read, or `None` where `s` has no tag or no
/// known status word.
pub open spec fn response_from(s: Seq<u8>, r: Option<ImapResponse>) -> bool {
    match status_text(s) {
        None => r is None,
        Some(t) => if has_prefix(t, "OK".spec_bytes()) {
            r matches Some(ImapResponse::Okay(c)) && code_from(after_word(t, "OK".spec_bytes()), c)
        } else if has_prefix(t, "NO".spec_bytes()) {
            r matches Some(ImapResponse::No(c)) && code_from(after_word(t, "NO".spec_bytes()), c)
        } else if has_prefix(t, "BAD".spec_bytes()) {
            r matches Some(ImapResponse::Bad(c)) && code_from(after_word(t, "BAD".spec_bytes()), c)
        } else if has_prefix(t, "PREAUTH".spec_bytes()) {
            r matches Some(ImapResponse::Preauth(c)) && code_from(
                after_word(t, "PREAUTH".spec_bytes()),
                c,
            )
        } else if has_prefix(t, "BYE".spec_bytes()) {
            r matches Some(ImapResponse::Bye(c)) && code_from(after_word(t, "BYE".spec_bytes()), c)
        } else {
            r is None
        },
    }
}

/// Where the status word `kw` (of length `n`) and one blank end in `t`.
fn skip_word(t: &[u8], n: usize) -> (r: usize)
    ensures
        r == if n + 1 <= t@.len() {
            n + 1
        } else {
            t@.len() as int
        },
{
    if n < t.len() {
        n + 1
    } else {
        t.len()
    }
}

/// Finds the status text of the last line of `s`.
fn status_text_bounds(s: &[u8]) -> (r: Option<(usize, usize)>)
    ensures
        match r {
            Some((a, b)) => a <= b <= s@.len() && status_text(s@) == Some(
                s@.subrange(a as int, b as int),
            ),
            None => status_text(s@) is None,
        },
{
    proof {
        reveal_strlit("\r\n");
        assert(vstd::string::is_ascii("\r\n"));
        reveal_strlit(" ");
        assert(vstd::string::is_ascii(" "));
    }
    let lim: usize = if s.len() >= 2 {
        s.len() - 2
    } else {
        0
    };
    assert(rfind_before(s@, "\r\n".spec_bytes(), s@.len() - 2) == rfind_before(
        s@,
        "\r\n".spec_bytes(),
        lim as int,
    ));
    let start = match rfind_below(s, "\r\n".as_bytes(), lim) {
        Some(j) => j + 2,
        None => 0,
    };
    let l = &s[start..s.len()];
    let p = match find_from(l, 0, " ".as_bytes()) {
        Some(p) => p,
        None => {
            return None;
        },
    };
    let u = &l[p + 1..l.len()];
    let (a, b) = trim_bounds(u);
    let t = &u[a..b];
    let base = start + p + 1 + a;
    assert(t@ =~= s@.subrange(base as int, base + t@.len()));
    if ends_with(t, " secs).".as_bytes()) {
        match rfind_below(t, "(".as_bytes(), t.len()) {
            Some(q) => {
                assert(t@.subrange(0, q as int) =~= s@.subrange(base as int, base + q));
                Some((base, base + q))
            },
            None => Some((base, base + t.len())),
        }
    } else {
        Some((base, base + t.len()))
    }
}

impl ImapResponse {
    /// Reads a tagged status line (the last line of `val`); `None` where it
    /// has no tag or no known status word.
    pub fn parse(val: &[u8]) -> (r: Option<ImapResponse>)
        ensures
            response_from(val@, r),
    {
        let (a, b) = match status_text_bounds(val) {
            Some(x) => x,
            None => {
                return None;
            },
        };
        let t = &val[a..b];
        if starts_with(t, "OK".as_bytes()) {
            proof {
                reveal_strlit("OK");
                assert(vstd::string::is_ascii("OK"));
            }
            let k = skip_word(t, 2);
            Some(ImapResponse::Okay(ResponseCode::from(&t[k..t.len()])))
        } else if starts_with(t, "NO".as_bytes()) {
            proof {
                reveal_strlit("NO");
                assert(vstd::string::is_ascii("NO"));
            }
            let k = skip_word(t, 2);
            Some(ImapResponse::No(ResponseCode::from(&t[k..t.len()])))
        } else if starts_with(t, "BAD".as_bytes()) {
            proof {
                reveal_strlit("BAD");
                assert(vstd::string::is_ascii("BAD"));
            }
            let k = skip_word(t, 3);
            Some(ImapResponse::Bad(ResponseCode::from(&t[k..t.len()])))
        } else if starts_with(t, "PREAUTH".as_bytes()) {
            proof {
                reveal_strlit("PREAUTH");
                assert(vstd::string::is_ascii("PREAUTH"));
            }
            let k = skip_word(t, 7);
            Some(ImapResponse::Preauth(ResponseCode::from(&t[k..t.len()])))
        } else if starts_with(t, "BYE".as_bytes()) {
            proof {
                reveal_strlit("BYE");
                assert(vstd::string::is_ascii("BYE"));
            }
            let k = skip_word(t, 3);
            Some(ImapResponse::Bye(ResponseCode::from(&t[k..t.len()])))
        } else {
            None
        }
    }

    /// Reads a tagged status line known to carry a tag and a status word.
    pub fn from(val: &str) -> (r: ImapResponse)
        requires
            exists|x: Option<ImapResponse>| x is Some && response_from(val.spec_bytes(), x),
        ensures
            response_from(val.spec_bytes(), Some(r)),
    {
        match ImapResponse::parse(val.as_bytes()) {
            Some(r) => r,
            None => {
                proof {
                    let x = choose|x: Option<ImapResponse>|
                        x is Some && response_from(val.spec_bytes(), x);
                }
                ImapResponse::Bye(ResponseCode::Capability)
            },
        }
    }

    /// `OK`, `PREAUTH` and `BYE` are success; `NO` and `BAD` fail with the
    /// server's text.
    pub fn into_result(self) -> (r: Result<(), MeliError>)
        ensures
            r is Ok <==> (self is Okay || self is Preauth || self is Bye),
            match self {
                ImapResponse::No(ResponseCode::Alert(m)) => r matches Err(e) && e.details@ == m@
                    && e.summary is None,
                ImapResponse::Bad(ResponseCode::Alert(m)) => r matches Err(e) && e.details@ == m@
                    && e.summary is None,
                ImapResponse::No(_) => r matches Err(e) && e.summary matches Some(s) && s@
                    == "IMAP NO Response."@,
                ImapResponse::Bad(_) => r matches Err(e) && e.summary matches Some(s) && s@
                    == "IMAP BAD Response."@,
                _ => true,
            },
    {
        match self {
            ImapResponse::Okay(_) | ImapResponse::Preauth(_) | ImapResponse::Bye(_) => Ok(()),
            ImapResponse::No(ResponseCode::Alert(msg)) => Err(MeliError::new(msg)),
            ImapResponse::Bad(ResponseCode::Alert(msg)) => Err(MeliError::new(msg)),
            ImapResponse::No(err) => Err(
                MeliError::with_summary(err.describe(), String::from_str("IMAP NO Response.")),
            ),
            ImapResponse::Bad(err) => Err(
                MeliError::with_summary(err.describe(), String::from_str("IMAP BAD Response.")),
            ),
        }
    }
}

impl ResponseCode {
    /// A human-readable description of the code.
    pub fn describe(&self) -> (r: String)
        ensures
            self matches ResponseCode::Alert(s) ==> r@ == "ALERT: "@ + s@,
            self is ReadOnly ==> r@ == "This mailbox is selected read-only."@,
            self is Trycreate ==> r@
                == "Failed to operate on the target mailbox because it doesn't exist. Try creating it first."@,
    {
        match self {
            ResponseCode::Alert(s) => String::from_str("ALERT: ").concat(s.as_str()),
            ResponseCode::Badcharset(None) => String::from_str(
                "Given charset is not supported by this server.",
            ),
            ResponseCode::Badcharset(Some(s)) => String::from_str(
                "Given charset is not supported by this server. Supported ones are: ",
            ).concat(s.as_str()),
            ResponseCode::Capability => String::from_str("Capability response"),
            ResponseCode::Parse(s) => String::from_str(
                "Server error in parsing message headers: ",
            ).concat(s.as_str()),
            ResponseCode::Permanentflags(s) => String::from_str(
                "Mailbox supports these flags: ",
            ).concat(s.as_str()),
            ResponseCode::ReadOnly => String::from_str("This mailbox is selected read-only."),
            ResponseCode::ReadWrite => String::from_str(
                "This mailbox is selected with read-write permissions.",
            ),
            ResponseCode::Trycreate => String::from_str(
                "Failed to operate on the target mailbox because it doesn't exist. Try creating it first.",
            ),
            ResponseCode::Uidnext(_) => String::from_str("Next UID value"),
            ResponseCode::Uidvalidity(_) => String::from_str("UIDVALIDITY value"),
            ResponseCode::Unseen(_) => String::from_str("First message without the \\Seen flag"),
        }
    }
}

} // verus!
