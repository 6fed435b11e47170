//! Parsers for the data of IMAP server responses: octet-counted literals,
//! quoted strings and atoms, flag lists, ENVELOPE structures, FETCH and
//! SELECT responses, SEARCH and STATUS results and LIST lines. Each takes
//! the input bytes and the position to start at, and gives back what it
//! read with the position after it.
use crate::bytes::{
    decimal_at, find_from, find_spec, has_prefix_at, is_space, parse_decimal, skip_spaces,
    spaces_end, starts_with_at,
};
use crate::envelope::{no_flags, Address, Envelope, Flag, StrBuilder};
use vstd::prelude::*;
use vstd::string::{StringExecFns, StringSliceAdditionalSpecFns};
use crate::error::MeliError;

verus! {

broadcast use vstd::string::group_string_axioms;

/// The octet-counted literal `{n}\r\n` followed by `n` bytes that starts
/// at `i`: the bounds of its bytes.
pub open spec fn literal_at(s: Seq<u8>, i: int) -> Option<(int, int)> {
    if !has_prefix_at(s, i, "{".spec_bytes()) {
        None
    } else {
        match decimal_at(s, i + 1) {
            None => None,
            Some((n, e)) => if has_prefix_at(s, e, "}\r\n".spec_bytes()) && e + 3 + n <= s.len() {
                Some((e + 3, e + 3 + n))
            } else {
                None
            },
        }
    }
}

proof fn lemma_lits()
    ensures
        "{".spec_bytes() =~= seq![123u8],
        "}\r\n".spec_bytes() =~= seq![125u8, 13u8, 10u8],
        "\"".spec_bytes() =~= seq![34u8],
        "NIL".spec_bytes() =~= seq![78u8, 73u8, 76u8],
        "(".spec_bytes() =~= seq![40u8],
        "\"\"".spec_bytes() =~= seq![34u8, 34u8],
{
    reveal_strlit("(");
    reveal_strlit("\"\"");
    assert(vstd::string::is_ascii("("));
    assert(vstd::string::is_ascii("\"\""));
    reveal_strlit("{");
    reveal_strlit("}\r\n");
    reveal_strlit("\"");
    reveal_strlit("NIL");
    assert(vstd::string::is_ascii("{"));
    assert(vstd::string::is_ascii("}\r\n"));
    assert(vstd::string::is_ascii("\""));
    assert(vstd::string::is_ascii("NIL"));
}

/// Reads the literal that starts at `i`; its bytes are exactly as many as
/// its announced length, whatever they hold.
pub fn literal(s: &[u8], i: usize) -> (r: Option<(usize, usize)>)
    requires
        i <= s@.len(),
    ensures
        literal_at(s@, i as int) == match r {
            Some((a, b)) => Some((a as int, b as int)),
            None => None,
        },
        r matches Some((a, b)) ==> i < a <= b <= s@.len(),
{
    proof {
        lemma_lits();
    }
    if i >= s.len() || !starts_with_at(s, i, "{".as_bytes()) {
        return None;
    }
    match parse_decimal(s, i + 1) {
        None => None,
        Some((n, e)) => {
            if starts_with_at(s, e, "}\r\n".as_bytes()) && n <= s.len() - (e + 3) {
                Some((e + 3, e + 3 + n))
            } else {
                None
            }
        },
    }
}

/// Position of the closing quote of a quoted string whose text starts at
/// `j`: the first `"` not preceded by a backslash.
pub open spec fn close_quote(s: Seq<u8>, j: int) -> Option<int>
    decreases s.len() - j,
{
    if j < 1 || j >= s.len() {
        None
    } else if s[j] == 34 && s[j - 1] != 92 {
        Some(j)
    } else {
        close_quote(s, j + 1)
    }
}

/// The string (literal or quoted) that starts at `i`: its bytes and the
/// position after it. Escapes inside a quoted string are kept as they are.
pub open spec fn string_at(s: Seq<u8>, i: int) -> Option<(Seq<u8>, int)> {
    match literal_at(s, i) {
        Some((a, b)) => Some((s.subrange(a, b), b)),
        None => if 0 <= i < s.len() && s[i] == 34 {
            match close_quote(s, i + 1) {
                Some(j) => Some((s.subrange(i + 1, j), j + 1)),
                None => None,
            }
        } else {
            None
        },
    }
}

fn close_quote_from(s: &[u8], j: usize) -> (r: Option<usize>)
    requires
        j >= 1,
    ensures
        match r {
            Some(k) => close_quote(s@, j as int) == Some(k as int) && j <= k < s@.len(),
            None => close_quote(s@, j as int) is None,
        },
{
    let mut k = j;
    while k < s.len()
        invariant
            k >= j >= 1,
            close_quote(s@, k as int) == close_quote(s@, j as int),
        decreases s@.len() - k,
    {
        if s[k] == 34 && s[k - 1] != 92 {
            return Some(k);
        }
        k += 1;
    }
    None
}

/// Reads the string (literal or quoted) that starts at `i`.
pub fn string_token(s: &[u8], i: usize) -> (r: Option<(Vec<u8>, usize)>)
    requires
        i <= s@.len(),
    ensures
        string_at(s@, i as int) == match r {
            Some((v, e)) => Some((v@, e as int)),
            None => None,
        },
        r matches Some((v, e)) ==> i < e <= s@.len(),
{
    if let Some((a, b)) = literal(s, i) {
        return Some((crate::bytes::copy_bytes(&s[a..b]), b));
    }
    if i >= s.len() || s[i] != 34 {
        return None;
    }
    match close_quote_from(s, i + 1) {
        Some(j) => Some((crate::bytes::copy_bytes(&s[i + 1..j]), j + 1)),
        None => None,
    }
}

/// A string or `NIL` at `i`: `Some(None)` for `NIL`.
pub open spec fn nstring_at(s: Seq<u8>, i: int) -> Option<(Option<Seq<u8>>, int)> {
    if has_prefix_at(s, i, "NIL".spec_bytes()) {
        Some((None, i + 3))
    } else {
        match string_at(s, i) {
            Some((v, e)) => Some((Some(v), e)),
            None => None,
        }
    }
}

/// Reads a string or `NIL` at `i`.
pub fn nstring(s: &[u8], i: usize) -> (r: Option<(Option<Vec<u8>>, usize)>)
    requires
        i <= s@.len(),
    ensures
        nstring_at(s@, i as int) == match r {
            Some((Some(v), e)) => Some((Some(v@), e as int)),
            Some((None, e)) => Some((None::<Seq<u8>>, e as int)),
            None => None,
        },
        r matches Some((_, e)) ==> i < e <= s@.len(),
{
    proof {
        lemma_lits();
    }
    if i < s.len() && starts_with_at(s, i, "NIL".as_bytes()) {
        return Some((None, i + 3));
    }
    match string_token(s, i) {
        Some((v, e)) => Some((Some(v), e)),
        None => None,
    }
}

/// Reads a string or `NIL` after optional blanks.
pub fn quoted_or_nil(s: &[u8], i: usize) -> (r: Option<(Option<Vec<u8>>, usize)>)
    requires
        i <= s@.len(),
    ensures
        nstring_at(s@, spaces_end(s@, i as int)) == match r {
            Some((Some(v), e)) => Some((Some(v@), e as int)),
            Some((None, e)) => Some((None::<Seq<u8>>, e as int)),
            None => None,
        },
        r matches Some((_, e)) ==> i < e <= s@.len(),
{
    let j = skip_spaces(s, i);
    nstring(s, j)
}

/// Where the `\Flag` or keyword that starts at `j` ends: at a blank, a `)`
/// or the end of the input.
pub open spec fn word_end(s: Seq<u8>, j: int) -> int
    decreases s.len() - j,
{
    if j < 0 || j >= s.len() || s[j] == 32 || s[j] == 41 {
        j
    } else {
        word_end(s, j + 1)
    }
}

/// The flag a system-flag word names.
pub open spec fn with_word(f: Flag, w: Seq<u8>) -> Flag {
    if w == "Answered".spec_bytes() {
        Flag { replied: true, ..f }
    } else if w == "Flagged".spec_bytes() {
        Flag { flagged: true, ..f }
    } else if w == "Deleted".spec_bytes() {
        Flag { trashed: true, ..f }
    } else if w == "Seen".spec_bytes() {
        Flag { seen: true, ..f }
    } else if w == "Draft".spec_bytes() {
        Flag { draft: true, ..f }
    } else {
        f
    }
}

pub open spec fn is_system_word(w: Seq<u8>) -> bool {
    w == "Answered".spec_bytes() || w == "Flagged".spec_bytes() || w == "Deleted".spec_bytes() || w
        == "Seen".spec_bytes() || w == "Draft".spec_bytes()
}

/// Bounds of the word read at `i`: it starts after an optional backslash.
pub open spec fn word_start(s: Seq<u8>, i: int) -> int {
    if 0 <= i < s.len() && s[i] == 92 {
        i + 1
    } else {
        i
    }
}

proof fn lemma_word_end(s: Seq<u8>, j: int)
    requires
        0 <= j,
    ensures
        j <= word_end(s, j),
        j <= s.len() ==> word_end(s, j) <= s.len(),
    decreases s.len() - j,
{
    if !(j < 0 || j >= s.len() || s[j] == 32 || s[j] == 41) {
        lemma_word_end(s, j + 1);
    }
}

proof fn lemma_spaces_end(s: Seq<u8>, j: int)
    requires
        0 <= j,
    ensures
        j <= spaces_end(s, j),
        j <= s.len() ==> spaces_end(s, j) <= s.len(),
        0 <= j < s.len() && is_space(s[j]) ==> spaces_end(s, j) > j,
    decreases s.len() - j,
{
    if !(j < 0 || j >= s.len() || !is_space(s[j])) {
        lemma_spaces_end(s, j + 1);
    }
}

/// Where the next word of a flag list starts after the word read at `i`.
pub open spec fn flag_next(s: Seq<u8>, i: int) -> int {
    spaces_end(s, word_end(s, word_start(s, i)))
}

proof fn lemma_flag_progress(s: Seq<u8>, i: int)
    requires
        0 <= i < s.len(),
        s[i] != 41,
    ensures
        i < flag_next(s, i) <= s.len(),
{
    let j = word_start(s, i);
    lemma_word_end(s, j);
    let e = word_end(s, j);
    lemma_spaces_end(s, e);
    if j == i && s[i] != 32 {
        lemma_word_end(s, i + 1);
        assert(word_end(s, i) == word_end(s, i + 1));
    }
}

/// The flags and keywords of the list that starts at `i`, read up to the
/// closing `)` or the end: the position there, the system flags named and
/// the other words in order.
pub open spec fn flags_from(s: Seq<u8>, i: int) -> (int, Flag, Seq<Seq<u8>>)
    decreases s.len() - i,
    via flags_from_decreases
{
    if i < 0 || i >= s.len() || s[i] == 41 {
        (i, no_flags(), Seq::empty())
    } else {
        let w = s.subrange(word_start(s, i), word_end(s, word_start(s, i)));
        let rest = flags_from(s, flag_next(s, i));
        (
            rest.0,
            with_word(rest.1, w),
            if is_system_word(w) {
                rest.2
            } else {
                seq![w] + rest.2
            },
        )
    }
}

#[via_fn]
proof fn flags_from_decreases(s: Seq<u8>, i: int) {
    if !(i < 0 || i >= s.len() || s[i] == 41) {
        lemma_flag_progress(s, i);
    }
}

/// The flags of `f` together with those of `g`.
pub open spec fn flag_union(f: Flag, g: Flag) -> Flag {
    Flag {
        passed: f.passed || g.passed,
        replied: f.replied || g.replied,
        seen: f.seen || g.seen,
        trashed: f.trashed || g.trashed,
        draft: f.draft || g.draft,
        flagged: f.flagged || g.flagged,
    }
}

proof fn lemma_with_word_union(f: Flag, g: Flag, w: Seq<u8>)
    ensures
        flag_union(f, with_word(g, w)) == with_word(flag_union(f, g), w),
{
}

fn word_is(s: &[u8], a: usize, b: usize, w: &str) -> (r: bool)
    requires
        a <= b <= s@.len(),
    ensures
        r == (s@.subrange(a as int, b as int) == w.spec_bytes()),
{
    crate::bytes::bytes_eq(&s[a..b], w.as_bytes())
}

/// The views of a list of byte vectors.
pub open spec fn views(v: Seq<Vec<u8>>) -> Seq<Seq<u8>> {
    v.map_values(|x: Vec<u8>| x@)
}

proof fn lemma_views_push(v: Seq<Vec<u8>>, x: Vec<u8>)
    ensures
        views(v.push(x)) == views(v).push(x@),
{
    assert(views(v.push(x)) =~= views(v).push(x@));
}

/// One step of a flag list: what the list from `p` is, in terms of the
/// list from the next word.
proof fn lemma_flags_step(s: Seq<u8>, p: int, f0: Flag, k0: Seq<Seq<u8>>, f1: Flag, k1: Seq<Seq<u8>>)
    requires
        0 <= p < s.len(),
        s[p] != 41,
        ({
            let w = s.subrange(word_start(s, p), word_end(s, word_start(s, p)));
            &&& f1 == with_word(f0, w)
            &&& k1 == if is_system_word(w) {
                k0
            } else {
                k0.push(w)
            }
        }),
    ensures
        ({
            let rest = flags_from(s, p);
            (rest.0, flag_union(f0, rest.1), k0 + rest.2)
        }) == ({
            let rest = flags_from(s, flag_next(s, p));
            (rest.0, flag_union(f1, rest.1), k1 + rest.2)
        }),
{
    let w = s.subrange(word_start(s, p), word_end(s, word_start(s, p)));
    let rest = flags_from(s, flag_next(s, p));
    lemma_with_word_union(f0, rest.1, w);
    assert(flag_union(f0, with_word(rest.1, w)) == flag_union(f1, rest.1));
    if !is_system_word(w) {
        assert(k0 + (seq![w] + rest.2) =~= k1 + rest.2);
    }
}

/// The bounds of the word read at `p` and where the next one starts.
fn flag_word(s: &[u8], p: usize) -> (r: (usize, usize, usize))
    requires
        p < s@.len(),
    ensures
        r.0 == word_start(s@, p as int),
        r.1 == word_end(s@, r.0 as int),
        r.2 == flag_next(s@, p as int),
        r.0 <= r.1 <= r.2 <= s@.len(),
{
    let j = if s[p] == 92 {
        p + 1
    } else {
        p
    };
    let mut e = j;
    while e < s.len() && s[e] != 32 && s[e] != 41
        invariant
            j <= e <= s@.len(),
            word_end(s@, e as int) == word_end(s@, j as int),
        decreases s@.len() - e,
    {
        e += 1;
    }
    let next = skip_spaces(s, e);
    (j, e, next)
}

/// Reads the flag list that starts at `i` (after its opening parenthesis).
pub fn flags(s: &[u8], i: usize) -> (r: (usize, Flag, Vec<Vec<u8>>))
    requires
        i <= s@.len(),
    ensures
        flags_from(s@, i as int) == (r.0 as int, r.1, views(r.2@)),
        i <= r.0 <= s@.len(),
{
    let mut f = Flag::empty();
    let mut keywords: Vec<Vec<u8>> = Vec::new();
    let mut p = i;
    proof {
        let rest = flags_from(s@, i as int);
        assert(views(keywords@) + rest.2 =~= rest.2);
    }
    while p < s.len() && s[p] != 41
        invariant
            i <= p <= s@.len(),
            flags_from(s@, i as int) == ({
                let rest = flags_from(s@, p as int);
                (rest.0, flag_union(f, rest.1), views(keywords@) + rest.2)
            }),
        decreases s@.len() - p,
    {
        let ghost k0 = views(keywords@);
        let ghost f0 = f;
        let (j, e, next) = flag_word(s, p);
        proof {
            lemma_flag_progress(s@, p as int);
        }
        if word_is(s, j, e, "Answered") {
            f.replied = true;
        } else if word_is(s, j, e, "Flagged") {
            f.flagged = true;
        } else if word_is(s, j, e, "Deleted") {
            f.trashed = true;
        } else if word_is(s, j, e, "Seen") {
            f.seen = true;
        } else if word_is(s, j, e, "Draft") {
            f.draft = true;
        } else {
            let w = crate::bytes::copy_bytes(&s[j..e]);
            proof {
                lemma_views_push(keywords@, w);
            }
            keywords.push(w);
        }
        proof {
            lemma_flags_step(s@, p as int, f0, k0, f, views(keywords@));
        }
        p = next;
    }
    proof {
        assert(views(keywords@) + Seq::<Seq<u8>>::empty() =~= views(keywords@));
    }
    (p, f, keywords)
}

/// Is a multipart/mixed part announced anywhere in the BODYSTRUCTURE text?
pub open spec fn has_mixed(s: Seq<u8>) -> bool {
    crate::bytes::occurs_from(s, 0, " \"mixed\" ".spec_bytes()) || crate::bytes::occurs_from(
        s,
        0,
        " \"MIXED\" ".spec_bytes(),
    )
}

/// A message has attachments when its BODYSTRUCTURE names a `"mixed"`
/// multipart.
pub fn bodystructure_has_attachments(input: &[u8]) -> (r: bool)
    ensures
        r == has_mixed(input@),
{
    crate::bytes::contains(input, " \"mixed\" ".as_bytes()) || crate::bytes::contains(
        input,
        " \"MIXED\" ".as_bytes(),
    )
}

} // verus!

verus! {

/// The text of an address: `name <mailbox@host>`, or `name mailbox` when
/// the host is missing; the blank after the name only when it is not empty.
pub open spec fn address_raw(name: Seq<u8>, mailbox: Seq<u8>, host: Option<Seq<u8>>) -> Seq<u8> {
    let lead = if name.len() == 0 {
        name
    } else {
        name.push(32)
    };
    match host {
        Some(h) => lead + seq![60u8] + mailbox + seq![64u8] + h + seq![62u8],
        None => lead + mailbox,
    }
}

/// The display-name and address-spec ranges of an address.
pub open spec fn address_offsets(name: Seq<u8>, mailbox: Seq<u8>, host: Option<Seq<u8>>) -> (
    StrBuilder,
    StrBuilder,
) {
    let display = StrBuilder { offset: 0, length: name.len() as usize };
    let spec = match host {
        Some(h) => StrBuilder {
            offset: if name.len() == 0 {
                1
            } else {
                (name.len() + 2) as usize
            },
            length: (mailbox.len() + h.len() + 1) as usize,
        },
        None => StrBuilder {
            offset: if name.len() == 0 {
                0
            } else {
                (name.len() + 1) as usize
            },
            length: mailbox.len() as usize,
        },
    };
    (display, spec)
}

/// The value of a string or `NIL`, `NIL` being empty.
pub open spec fn or_empty(v: Option<Seq<u8>>) -> Seq<u8> {
    match v {
        Some(x) => x,
        None => Seq::empty(),
    }
}

/// The address structure `name SP route SP mailbox [SP host]` that starts
/// at `i` (inside its parentheses): name, mailbox, host and end position.
pub open spec fn address_at(s: Seq<u8>, i: int) -> Option<(Seq<u8>, Seq<u8>, Option<Seq<u8>>, int)> {
    match nstring_at(s, i) {
        None => None,
        Some((name, e1)) => {
            let j1 = spaces_end(s, e1);
            if j1 == e1 {
                None
            } else {
                match nstring_at(s, j1) {
                    None => None,
                    Some((_, e2)) => {
                        let j2 = spaces_end(s, e2);
                        if j2 == e2 {
                            None
                        } else {
                            match nstring_at(s, j2) {
                                None => None,
                                Some((mailbox, e3)) => {
                                    let j3 = spaces_end(s, e3);
                                    match nstring_at(s, j3) {
                                        Some((host, e4)) if j3 > e3 => Some(
                                            (or_empty(name), or_empty(mailbox), Some(or_empty(host)), e4),
                                        ),
                                        _ => Some((or_empty(name), or_empty(mailbox), None, e3)),
                                    }
                                },
                            }
                        }
                    },
                }
            }
        },
    }
}

fn unwrap_or_empty(v: Option<Vec<u8>>) -> (r: Vec<u8>)
    ensures
        r@ == or_empty(
            match v {
                Some(x) => Some(x@),
                None => None,
            },
        ),
{
    match v {
        Some(x) => x,
        None => Vec::new(),
    }
}

fn append(dst: &mut Vec<u8>, src: &[u8])
    ensures
        final(dst)@ == old(dst)@ + src@,
{
    let ghost d0 = dst@;
    let mut k: usize = 0;
    while k < src.len()
        invariant
            k <= src@.len(),
            dst@ == d0 + src@.subrange(0, k as int),
        decreases src@.len() - k,
    {
        dst.push(src[k]);
        k += 1;
        assert(dst@ =~= d0 + src@.subrange(0, k as int));
    }
    assert(src@.subrange(0, src@.len() as int) =~= src@);
}

/// Renders an address from its parts.
fn make_address(name: Vec<u8>, mailbox: Vec<u8>, host: Option<Vec<u8>>) -> (a: Address)
    ensures
        ({
            let hv = match host {
                Some(h) => Some(h@),
                None => None,
            };
            a.raw@ == address_raw(name@, mailbox@, hv) && (a.display_name, a.address_spec)
                == address_offsets(name@, mailbox@, hv)
        }),
{
    let mut raw: Vec<u8> = Vec::new();
    append(&mut raw, name.as_slice());
    if name.len() > 0 {
        raw.push(32);
    }
    let nl = name.len();
    let ml = mailbox.len();
    let address_spec = match &host {
        Some(h) => {
            raw.push(60);
            append(&mut raw, mailbox.as_slice());
            raw.push(64);
            append(&mut raw, h.as_slice());
            raw.push(62);
            let total = raw.len();
            assert(total == (if nl == 0 { 0int } else { nl + 1 }) + ml + h@.len() + 3);
            StrBuilder {
                offset: if nl == 0 {
                    1
                } else {
                    nl + 2
                },
                length: ml + h.len() + 1,
            }
        },
        None => {
            append(&mut raw, mailbox.as_slice());
            let total = raw.len();
            assert(total == (if nl == 0 { 0int } else { nl + 1 }) + ml);
            StrBuilder {
                offset: if nl == 0 {
                    0
                } else {
                    nl + 1
                },
                length: ml,
            }
        },
    };
    proof {
        let hv = match host {
            Some(h) => Some(h@),
            None => None,
        };
        let lead = if name@.len() == 0 {
            name@
        } else {
            name@.push(32)
        };
        assert(raw@ =~= address_raw(name@, mailbox@, hv));
    }
    Address { raw, display_name: StrBuilder { offset: 0, length: nl }, address_spec }
}

/// Reads the address structure that starts at `i`, inside its parentheses.
pub fn envelope_address(s: &[u8], i: usize) -> (r: Option<(Address, usize)>)
    requires
        i <= s@.len(),
    ensures
        match address_at(s@, i as int) {
            None => r is None,
            Some((name, mailbox, host, e)) => r matches Some((a, end)) && end == e && a.raw@
                == address_raw(name, mailbox, host) && (a.display_name, a.address_spec)
                == address_offsets(name, mailbox, host),
        },
        r matches Some((_, e)) ==> i < e <= s@.len(),
{
    let (name, e1) = match nstring(s, i) {
        Some(x) => x,
        None => {
            return None;
        },
    };
    let j1 = skip_spaces(s, e1);
    if j1 == e1 {
        return None;
    }
    let e2 = match nstring(s, j1) {
        Some((_, e)) => e,
        None => {
            return None;
        },
    };
    let j2 = skip_spaces(s, e2);
    if j2 == e2 {
        return None;
    }
    let (mailbox, e3) = match nstring(s, j2) {
        Some(x) => x,
        None => {
            return None;
        },
    };
    let j3 = skip_spaces(s, e3);
    let (host, end) = if j3 > e3 {
        match nstring(s, j3) {
            Some((h, e4)) => (Some(unwrap_or_empty(h)), e4),
            None => (None, e3),
        }
    } else {
        (None, e3)
    };
    let name = unwrap_or_empty(name);
    let mailbox = unwrap_or_empty(mailbox);
    Some((make_address(name, mailbox, host), end))
}

} // verus!

verus! {

proof fn lemma_close_quote_ge(s: Seq<u8>, j: int)
    ensures
        close_quote(s, j) matches Some(k) ==> j <= k < s.len(),
    decreases s.len() - j,
{
    if !(j < 1 || j >= s.len()) && !(s[j] == 34 && s[j - 1] != 92) {
        lemma_close_quote_ge(s, j + 1);
    }
}

proof fn lemma_nstring_progress(s: Seq<u8>, i: int)
    requires
        0 <= i,
    ensures
        nstring_at(s, i) matches Some((_, e)) ==> i < e,
{
    lemma_lits();
    lemma_digits_end(s, i + 1);
    lemma_close_quote_ge(s, i + 1);
}

proof fn lemma_address_progress(s: Seq<u8>, i: int)
    requires
        0 <= i,
    ensures
        address_at(s, i) matches Some((_, _, _, e)) ==> i < e,
{
    lemma_nstring_progress(s, i);
    if let Some((_, e1)) = nstring_at(s, i) {
        lemma_spaces_end(s, e1);
        let j1 = spaces_end(s, e1);
        lemma_nstring_progress(s, j1);
        if let Some((_, e2)) = nstring_at(s, j1) {
            lemma_spaces_end(s, e2);
            let j2 = spaces_end(s, e2);
            lemma_nstring_progress(s, j2);
            if let Some((_, e3)) = nstring_at(s, j2) {
                lemma_spaces_end(s, e3);
                let j3 = spaces_end(s, e3);
                lemma_nstring_progress(s, j3);
            }
        }
    }
}

/// The parts of an address: name, mailbox and host.
pub type AddressParts = (Seq<u8>, Seq<u8>, Option<Seq<u8>>);

/// The parenthesized address structures that follow one another from `p`,
/// and where they end.
pub open spec fn address_items(s: Seq<u8>, p: int) -> Option<(Seq<AddressParts>, int)>
    decreases s.len() - p,
    via address_items_decreases
{
    if 0 <= p < s.len() && s[p] == 40 {
        match address_at(s, p + 1) {
            Some((n, m, h, e)) => if e < s.len() && s[e] == 41 {
                match address_items(s, e + 1) {
                    Some((rest, k)) => Some((seq![(n, m, h)] + rest, k)),
                    None => None,
                }
            } else {
                None
            },
            None => None,
        }
    } else {
        Some((Seq::empty(), p))
    }
}

#[via_fn]
proof fn address_items_decreases(s: Seq<u8>, p: int) {
    if 0 <= p < s.len() && s[p] == 40 {
        lemma_address_progress(s, p + 1);
    }
}

/// A list of address structures, `NIL` or `""` at `i`; `None` inside for
/// no addresses.
pub open spec fn address_list_at(s: Seq<u8>, i: int) -> Option<(Option<Seq<AddressParts>>, int)> {
    if has_prefix_at(s, i, "NIL".spec_bytes()) {
        Some((None, i + 3))
    } else if has_prefix_at(s, i, "\"\"".spec_bytes()) {
        Some((None, i + 2))
    } else if 0 <= i < s.len() && s[i] == 40 {
        match address_items(s, spaces_end(s, i + 1)) {
            Some((items, p)) => if items.len() > 0 && p < s.len() && s[p] == 41 {
                Some((Some(items), p + 1))
            } else {
                None
            },
            None => None,
        }
    } else {
        None
    }
}

/// `a` renders the address made of `parts`.
pub open spec fn renders(a: Address, parts: AddressParts) -> bool {
    &&& a.raw@ == address_raw(parts.0, parts.1, parts.2)
    &&& (a.display_name, a.address_spec) == address_offsets(parts.0, parts.1, parts.2)
}

/// Reads a list of address structures, `NIL` or `""` at `i`.
pub fn envelope_addresses(s: &[u8], i: usize) -> (r: Option<(Option<Vec<Address>>, usize)>)
    requires
        i <= s@.len(),
    ensures
        r matches Some((_, e)) ==> i < e <= s@.len(),
        match address_list_at(s@, i as int) {
            None => r is None,
            Some((None, e)) => r matches Some((None, end)) && end == e,
            Some((Some(items), e)) => r matches Some((Some(v), end)) && end == e && v@.len()
                == items.len() && forall|k: int| 0 <= k < items.len() ==> renders(#[trigger] v@[k], items[k]),
        },
{
    proof {
        lemma_lits();
    }
    if i < s.len() && starts_with_at(s, i, "NIL".as_bytes()) {
        return Some((None, i + 3));
    }
    if i < s.len() && starts_with_at(s, i, "\"\"".as_bytes()) {
        return Some((None, i + 2));
    }
    if i >= s.len() || s[i] != 40 {
        return None;
    }
    let p0 = skip_spaces(s, i + 1);
    let mut p = p0;
    let mut list: Vec<Address> = Vec::new();
    let ghost mut parts: Seq<AddressParts> = Seq::empty();
    proof {
        assert(parts + Seq::empty() =~= parts);
    }
    while p < s.len() && s[p] == 40
        invariant
            i < p0 <= p <= s@.len(),
            p0 == spaces_end(s@, i + 1),
            s@[i as int] == 40,
            !has_prefix_at(s@, i as int, "NIL".spec_bytes()),
            !has_prefix_at(s@, i as int, "\"\"".spec_bytes()),
            list@.len() == parts.len(),
            forall|k: int| 0 <= k < parts.len() ==> renders(#[trigger] list@[k], parts[k]),
            address_items(s@, p0 as int) == match address_items(s@, p as int) {
                Some((rest, k)) => Some((parts + rest, k)),
                None => None,
            },
        decreases s@.len() - p,
    {
        match envelope_address(s, p + 1) {
            Some((a, e)) => {
                if e < s.len() && s[e] == 41 {
                    let ghost item = address_at(s@, p + 1).unwrap();
                    let ghost pt: AddressParts = (item.0, item.1, item.2);
                    let ghost l0 = list@;
                    list.push(a);
                    proof {
                        assert(renders(a, pt));
                        assert forall|k: int| 0 <= k < parts.len() + 1 implies renders(
                            #[trigger] list@[k],
                            parts.push(pt)[k],
                        ) by {
                            if k < parts.len() {
                                assert(list@[k] == l0[k]);
                            }
                        }
                        match address_items(s@, e + 1) {
                            Some((rest, kk)) => {
                                assert(parts + (seq![pt] + rest) =~= parts.push(pt) + rest);
                            },
                            None => {},
                        }
                        parts = parts.push(pt);
                    }
                    p = e + 1;
                } else {
                    return None;
                }
            },
            None => {
                return None;
            },
        }
    }
    proof {
        assert(parts + Seq::<AddressParts>::empty() =~= parts);
    }
    if list.len() == 0 || p >= s.len() || s[p] != 41 {
        return None;
    }
    Some((Some(list), p + 1))
}


/// The fields an ENVELOPE structure gives.
pub struct EnvelopeParts {
    pub date: Option<Seq<u8>>,
    pub subject: Option<Seq<u8>>,
    pub from: Option<Seq<AddressParts>>,
    pub to: Option<Seq<AddressParts>>,
    pub cc: Option<Seq<AddressParts>>,
    pub bcc: Option<Seq<AddressParts>>,
    pub in_reply_to: Option<Seq<u8>>,
    pub message_id: Option<Seq<u8>>,
}

/// The string or `NIL` after optional blanks at `i`.
pub open spec fn field_at(s: Seq<u8>, i: int) -> Option<(Option<Seq<u8>>, int)> {
    nstring_at(s, spaces_end(s, i))
}

/// The address list after optional blanks at `i`.
pub open spec fn list_field_at(s: Seq<u8>, i: int) -> Option<(Option<Seq<AddressParts>>, int)> {
    address_list_at(s, spaces_end(s, i))
}

/// The ENVELOPE structure at `i`: date, subject, from, sender, reply-to,
/// to, cc, bcc, in-reply-to and message-id inside parentheses, blanks
/// allowed between them; its fields and where it ends.
#[verifier::opaque]
pub open spec fn envelope_at(s: Seq<u8>, i: int) -> Option<(EnvelopeParts, int)> {
    if !(0 <= i < s.len() && s[i] == 40) {
        None
    } else {
        match field_at(s, i + 1) {
            None => None,
            Some((date, p1)) => match field_at(s, p1) {
                None => None,
                Some((subject, p2)) => match list_field_at(s, p2) {
                    None => None,
                    Some((from, p3)) => match list_field_at(s, p3) {
                        None => None,
                        Some((_, p4)) => match list_field_at(s, p4) {
                            None => None,
                            Some((_, p5)) => match list_field_at(s, p5) {
                                None => None,
                                Some((to, p6)) => match list_field_at(s, p6) {
                                    None => None,
                                    Some((cc, p7)) => match list_field_at(s, p7) {
                                        None => None,
                                        Some((bcc, p8)) => match field_at(s, p8) {
                                            None => None,
                                            Some((in_reply_to, p9)) => match field_at(s, p9) {
                                                None => None,
                                                Some((message_id, p10)) => {
                                                    let q = spaces_end(s, p10);
                                                    if q < s.len() && s[q] == 41 {
                                                        Some(
                                                            (
                                                                EnvelopeParts {
                                                                    date,
                                                                    subject,
                                                                    from,
                                                                    to,
                                                                    cc,
                                                                    bcc,
                                                                    in_reply_to,
                                                                    message_id,
                                                                },
                                                                q + 1,
                                                            ),
                                                        )
                                                    } else {
                                                        None
                                                    }
                                                },
                                            },
                                        },
                                    },
                                },
                            },
                        },
                    },
                },
            },
        }
    }
}

/// The addresses `v` render the parsed list `p` (none for `NIL`).
pub open spec fn addresses_match(v: Seq<Address>, p: Option<Seq<AddressParts>>) -> bool {
    match p {
        Some(items) => v.len() == items.len() && forall|k: int|
            0 <= k < items.len() ==> renders(#[trigger] v[k], items[k]),
        None => v.len() == 0,
    }
}

/// `env` holds the fields `parts` of an ENVELOPE structure; its one
/// reference is the In-Reply-To.
pub open spec fn envelope_matches(env: Envelope, parts: EnvelopeParts) -> bool {
    &&& env.date_raw@ == or_empty(parts.date)
    &&& env.subject@ == or_empty(parts.subject)
    &&& env.in_reply_to@ == or_empty(parts.in_reply_to)
    &&& env.message_id@ == or_empty(parts.message_id)
    &&& addresses_match(env.from@, parts.from)
    &&& addresses_match(env.to@, parts.to)
    &&& addresses_match(env.cc@, parts.cc)
    &&& addresses_match(env.bcc@, parts.bcc)
    &&& views(env.references@) == match parts.in_reply_to {
        Some(x) => seq![x],
        None => Seq::empty(),
    }
}

/// The number of addresses of an optional list.
pub open spec fn count_of(v: Option<Seq<AddressParts>>) -> nat {
    match v {
        Some(x) => x.len(),
        None => 0,
    }
}


/// The view of an optional byte string.
pub open spec fn opt_view(o: Option<Vec<u8>>) -> Option<Seq<u8>> {
    match o {
        Some(v) => Some(v@),
        None => None,
    }
}

/// The read list `o` renders the parsed list `p`.
pub open spec fn list_match(o: Option<Vec<Address>>, p: Option<Seq<AddressParts>>) -> bool {
    match (o, p) {
        (Some(v), Some(items)) => v@.len() == items.len() && forall|k: int|
            0 <= k < items.len() ==> renders(#[trigger] v@[k], items[k]),
        (None, None) => true,
        _ => false,
    }
}

fn address_field(s: &[u8], i: usize) -> (r: Option<(Option<Vec<Address>>, usize)>)
    requires
        i <= s@.len(),
    ensures
        match list_field_at(s@, i as int) {
            None => r is None,
            Some((p, e)) => r matches Some((o, end)) && end == e && list_match(o, p),
        },
        r matches Some((_, e)) ==> i < e <= s@.len(),
{
    let p = skip_spaces(s, i);
    envelope_addresses(s, p)
}

/// The fields of the ENVELOPE structure at `i`, as read.
fn envelope_fields(s: &[u8], i: usize) -> (r: Option<
    (
        Option<Vec<u8>>,
        Option<Vec<u8>>,
        Option<Vec<Address>>,
        Option<Vec<Address>>,
        Option<Vec<Address>>,
        Option<Vec<Address>>,
        Option<Vec<u8>>,
        Option<Vec<u8>>,
        usize,
    ),
>)
    requires
        i <= s@.len(),
    ensures
        r matches Some(x) ==> i < x.8 <= s@.len(),
        match envelope_at(s@, i as int) {
            None => r is None,
            Some((parts, e)) => r matches Some(x) && x.8 == e && opt_view(x.0) == parts.date
                && opt_view(x.1) == parts.subject && list_match(x.2, parts.from) && list_match(
                x.3,
                parts.to,
            ) && list_match(x.4, parts.cc) && list_match(x.5, parts.bcc) && opt_view(x.6)
                == parts.in_reply_to && opt_view(x.7) == parts.message_id,
        },
{
    proof {
        reveal(envelope_at);
    }
    if i >= s.len() || s[i] != 40 {
        return None;
    }
    let (date, p) = quoted_or_nil(s, i + 1)?;
    let (subject, p) = quoted_or_nil(s, p)?;
    let (from, p) = address_field(s, p)?;
    let (_sender, p) = address_field(s, p)?;
    let (_reply_to, p) = address_field(s, p)?;
    let (to, p) = address_field(s, p)?;
    let (cc, p) = address_field(s, p)?;
    let (bcc, p) = address_field(s, p)?;
    let (in_reply_to, p) = quoted_or_nil(s, p)?;
    let (message_id, p) = quoted_or_nil(s, p)?;
    let p = skip_spaces(s, p);
    if p >= s.len() || s[p] != 41 {
        return None;
    }
    Some((date, subject, from, to, cc, bcc, in_reply_to, message_id, p + 1))
}

fn addresses_of(o: Option<Vec<Address>>) -> (r: Vec<Address>)
    ensures
        forall|p: Option<Seq<AddressParts>>| list_match(o, p) ==> addresses_match(r@, p),
{
    match o {
        Some(x) => x,
        None => Vec::new(),
    }
}

/// Reads the ENVELOPE structure that starts at `i` into an envelope. The
/// In-Reply-To also becomes the message's one reference.
pub fn envelope(s: &[u8], i: usize) -> (r: Option<(Envelope, usize)>)
    requires
        i <= s@.len(),
    ensures
        r matches Some((_, e)) ==> i < e <= s@.len(),
        match envelope_at(s@, i as int) {
            None => r is None,
            Some((parts, e)) => r matches Some((env, end)) && end == e && envelope_matches(env, parts)
                && !env.has_attachments,
        },
{
    let (date, subject, from, to, cc, bcc, in_reply_to, message_id, end) = envelope_fields(s, i)?;
    let mut env = Envelope::new(0);
    env.date_raw = unwrap_or_empty(date);
    env.subject = unwrap_or_empty(subject);
    env.from = addresses_of(from);
    env.to = addresses_of(to);
    env.cc = addresses_of(cc);
    env.bcc = addresses_of(bcc);
    match in_reply_to {
        Some(irt) => {
            let copy = crate::bytes::copy_bytes(irt.as_slice());
            env.references.push(copy);
            proof {
                assert(views(env.references@) =~= seq![irt@]);
            }
            env.in_reply_to = irt;
        },
        None => {
            assert(views(env.references@) =~= Seq::<Seq<u8>>::empty());
        },
    }
    env.message_id = unwrap_or_empty(message_id);
    proof {
        let parts = envelope_at(s@, i as int).unwrap().0;
        assert(addresses_match(env.from@, parts.from));
        assert(addresses_match(env.to@, parts.to));
        assert(addresses_match(env.cc@, parts.cc));
        assert(addresses_match(env.bcc@, parts.bcc));
        assert(env.date_raw@ == or_empty(parts.date));
        assert(env.subject@ == or_empty(parts.subject));
        assert(env.in_reply_to@ == or_empty(parts.in_reply_to));
        assert(env.message_id@ == or_empty(parts.message_id));
        assert(envelope_matches(env, parts));
    }
    Some((env, end))
}

} // verus!

verus! {

/// The data of one `* n FETCH (...)` response.
pub struct UidFetchResponse<'a> {
    pub uid: usize,
    pub message_sequence_number: usize,
    pub flags: Option<(Flag, Vec<Vec<u8>>)>,
    pub body: Option<&'a [u8]>,
    pub envelope: Option<Envelope>,
}

/// `b` is exactly the content of one of the octet-counted literals of `s`.
pub open spec fn body_is_literal(s: Seq<u8>, b: Seq<u8>) -> bool {
    exists|j: int| #[trigger] literal_at(s, j) matches Some((x, y)) && b == s.subrange(x, y)
}

/// Up to 40 bytes of `s` from `i`, for error messages.
fn context(s: &[u8], i: usize) -> (r: String)
    requires
        i <= s@.len(),
{
    let end = if s.len() - i > 40 {
        i + 40
    } else {
        s.len()
    };
    crate::bytes::text_from_bytes(&s[i..end])
}

fn fetch_error(what: &str, s: &[u8], i: usize) -> (r: MeliError)
    requires
        i <= s@.len(),
{
    let msg = String::from_str(what).concat("`").concat(context(s, i).as_str()).concat("`");
    MeliError::new(msg)
}

/// The scan of a BODYSTRUCTURE from `ptr` on, at parenthesis depth `level`,
/// inside a quoted string or not: where it ends (after the parenthesis that
/// closes the first one, or at the end of the input); `None` for an
/// unbalanced `)`.
pub open spec fn bs_scan(s: Seq<u8>, ptr: int, level: nat, inq: bool) -> Option<int>
    decreases s.len() - ptr,
{
    if ptr < 0 || ptr >= s.len() {
        Some(ptr)
    } else if !inq {
        if s[ptr] == 40 {
            bs_scan(s, ptr + 1, level + 1, false)
        } else if s[ptr] == 41 {
            if level == 0 {
                None
            } else if level == 1 {
                Some(ptr + 1)
            } else {
                bs_scan(s, ptr + 1, (level - 1) as nat, false)
            }
        } else if s[ptr] == 34 {
            bs_scan(s, ptr + 1, level, true)
        } else {
            bs_scan(s, ptr + 1, level, false)
        }
    } else if s[ptr] == 34 && (ptr == 0 || s[ptr - 1] != 92) {
        bs_scan(s, ptr + 1, level, false)
    } else {
        bs_scan(s, ptr + 1, level, true)
    }
}

/// Where the BODYSTRUCTURE that starts at `i` ends.
fn bodystructure_end(s: &[u8], i: usize) -> (r: Option<usize>)
    requires
        i <= s@.len(),
    ensures
        bs_scan(s@, i as int, 0, false) == match r {
            Some(e) => Some(e as int),
            None => None,
        },
        r matches Some(e) ==> i <= e <= s@.len(),
{
    let mut ptr = i;
    let mut level: usize = 0;
    let mut inside_quote = false;
    while ptr < s.len()
        invariant
            i <= ptr <= s@.len(),
            level <= ptr - i,
            bs_scan(s@, ptr as int, level as nat, inside_quote) == bs_scan(s@, i as int, 0, false),
        decreases s@.len() - ptr,
    {
        if !inside_quote {
            if s[ptr] == 40 {
                level += 1;
            } else if s[ptr] == 41 {
                if level == 0 {
                    return None;
                }
                level -= 1;
                if level == 0 {
                    return Some(ptr + 1);
                }
            } else if s[ptr] == 34 {
                inside_quote = true;
            }
        } else if s[ptr] == 34 && (ptr == 0 || s[ptr - 1] != 92) {
            inside_quote = false;
        }
        ptr += 1;
    }
    Some(ptr)
}

proof fn lemma_fetch_lits()
    ensures
        "* ".spec_bytes().len() == 2,
        "FETCH (".spec_bytes().len() == 7,
        "UID ".spec_bytes().len() == 4,
        "FLAGS (".spec_bytes().len() == 7,
        "RFC822 {".spec_bytes().len() == 8,
        "ENVELOPE (".spec_bytes().len() == 10,
        "BODYSTRUCTURE ".spec_bytes().len() == 14,
        ")\r\n".spec_bytes().len() == 3,
{
    reveal_strlit("* ");
    assert(vstd::string::is_ascii("* "));
    reveal_strlit("FETCH (");
    assert(vstd::string::is_ascii("FETCH ("));
    reveal_strlit("UID ");
    assert(vstd::string::is_ascii("UID "));
    reveal_strlit("FLAGS (");
    assert(vstd::string::is_ascii("FLAGS ("));
    reveal_strlit("RFC822 {");
    assert(vstd::string::is_ascii("RFC822 {"));
    reveal_strlit("ENVELOPE (");
    assert(vstd::string::is_ascii("ENVELOPE ("));
    reveal_strlit("BODYSTRUCTURE ");
    assert(vstd::string::is_ascii("BODYSTRUCTURE "));
    reveal_strlit(")\r\n");
    assert(vstd::string::is_ascii(")\r\n"));
}

/// What the data items of a FETCH response have given so far.
pub struct FetchAcc {
    pub uid: nat,
    pub msn: nat,
    pub flags: Option<(Flag, Seq<Seq<u8>>)>,
    pub body: Option<(int, int)>,
    pub env: Option<EnvelopeParts>,
    pub has_att: bool,
}

#[via_fn]
proof fn fetch_fold_decreases(s: Seq<u8>, i: int, acc: FetchAcc) {
    if 0 <= i <= s.len() {
        lemma_spaces_end(s, i);
    }
}

/// The data items of a FETCH response from `i` on, each after optional
/// blanks and in any order: `UID n`, `FLAGS (...)`, `RFC822` with its
/// literal, `ENVELOPE (...)`, `BODYSTRUCTURE (...)`; they end at `)` and
/// CRLF, or at the end of the input. The end position and what they gave.
pub open spec fn fetch_fold(s: Seq<u8>, i: int, acc: FetchAcc) -> Option<(int, FetchAcc)>
    decreases s.len() - i,
    via fetch_fold_decreases
{
    if i < 0 || i > s.len() {
        None
    } else {
        let j = spaces_end(s, i);
        if j >= s.len() {
            Some((j, acc))
        } else if has_prefix_at(s, j, "UID ".spec_bytes()) {
            match decimal_at(s, j + 4) {
                Some((v, e)) => if j < e <= s.len() {
                    fetch_fold(s, e, FetchAcc { uid: v, ..acc })
                } else {
                    None
                },
                None => None,
            }
        } else if has_prefix_at(s, j, "FLAGS (".spec_bytes()) {
            let fl = flags_from(s, j + 7);
            if j < fl.0 < s.len() && s[fl.0] == 41 {
                fetch_fold(s, fl.0 + 1, FetchAcc { flags: Some((fl.1, fl.2)), ..acc })
            } else {
                None
            }
        } else if has_prefix_at(s, j, "RFC822 {".spec_bytes()) {
            match literal_at(s, j + 7) {
                Some((a, b)) => if j < b <= s.len() {
                    fetch_fold(s, b, FetchAcc { body: Some((a, b)), ..acc })
                } else {
                    None
                },
                None => None,
            }
        } else if has_prefix_at(s, j, "ENVELOPE (".spec_bytes()) {
            match envelope_at(s, j + 9) {
                Some((p, e)) => if j < e <= s.len() {
                    fetch_fold(s, e, FetchAcc { env: Some(p), ..acc })
                } else {
                    None
                },
                None => None,
            }
        } else if has_prefix_at(s, j, "BODYSTRUCTURE ".spec_bytes()) {
            match bs_scan(s, j + 14, 0, false) {
                Some(e) => if j + 14 <= e <= s.len() {
                    fetch_fold(
                        s,
                        if e > j {
                            e
                        } else {
                            j + 1
                        },
                        FetchAcc { has_att: has_mixed(s.subrange(j + 14, e)), ..acc },
                    )
                } else {
                    None
                },
                None => None,
            }
        } else if has_prefix_at(s, j, ")\r\n".spec_bytes()) {
            Some((j + 3, acc))
        } else {
            None
        }
    }
}

/// The FETCH response `* n FETCH (items)` at `start`: its end and what it
/// gave. A sequence number too large for a `usize` makes it fail; a
/// missing one reads as 0.
pub open spec fn fetch_item(s: Seq<u8>, start: int) -> Option<(int, FetchAcc)> {
    if !has_prefix_at(s, start, "* ".spec_bytes()) {
        None
    } else {
        let d = start + 2;
        let (msn, i) = match decimal_at(s, d) {
            Some((v, e)) => (v, e),
            None => (0nat, d),
        };
        if decimal_at(s, d) is None && d < s.len() && crate::bytes::is_digit(s[d]) {
            None
        } else {
            let i2 = spaces_end(s, i);
            if !has_prefix_at(s, i2, "FETCH (".spec_bytes()) {
                None
            } else {
                fetch_fold(
                    s,
                    i2 + 7,
                    FetchAcc { uid: 0, msn, flags: None, body: None, env: None, has_att: false },
                )
            }
        }
    }
}

/// The response `r` holds what `acc` says, the envelope (if any) without
/// its attachment mark.
pub open spec fn fetch_holds<'a>(s: Seq<u8>, r: UidFetchResponse<'a>, acc: FetchAcc) -> bool {
    &&& r.uid == acc.uid
    &&& r.message_sequence_number == acc.msn
    &&& match (r.flags, acc.flags) {
        (Some((f, kw)), Some((g, ws))) => f == g && views(kw@) == ws,
        (None, None) => true,
        _ => false,
    }
    &&& match (r.body, acc.body) {
        (Some(b), Some((x, y))) => b@ == s.subrange(x, y),
        (None, None) => true,
        _ => false,
    }
    &&& match (r.envelope, acc.env) {
        (Some(e), Some(p)) => envelope_matches(e, p),
        (None, None) => true,
        _ => false,
    }
}

/// Reads one FETCH response at `start`: `* n FETCH (` then, in any order,
/// `UID n`, `FLAGS (...)`, `RFC822 {n}` with its literal, `ENVELOPE (...)`
/// and `BODYSTRUCTURE (...)`, up to `)` and CRLF. A message body is always
/// the exact content of its literal, whatever bytes it holds.
pub fn uid_fetch_response<'a>(s: &'a [u8], start: usize) -> (r: Result<
    (usize, UidFetchResponse<'a>),
    MeliError,
>)
    requires
        start <= s@.len(),
    ensures
        match fetch_item(s@, start as int) {
            None => r is Err,
            Some((e, acc)) => r matches Ok((end, resp)) && end == e && fetch_holds(s@, resp, acc)
                && (resp.envelope matches Some(env) ==> env.has_attachments == acc.has_att),
        },
        r matches Ok((e, resp)) ==> start < e <= s@.len() && (resp.body matches Some(b)
            ==> body_is_literal(s@, b@)),
{
    proof {
        lemma_fetch_lits();
    }
    if start >= s.len() || !starts_with_at(s, start, "* ".as_bytes()) {
        return Err(fetch_error("Expected `* ` but got ", s, start));
    }
    let mut i = start + 2;
    let msn = match parse_decimal(s, i) {
        Some((v, e)) => {
            i = e;
            v
        },
        None => {
            if i < s.len() && crate::bytes::is_digit_byte(s[i]) {
                return Err(fetch_error("Message number too large: ", s, i));
            }
            0
        },
    };
    i = skip_spaces(s, i);
    if !starts_with_at(s, i, "FETCH (".as_bytes()) {
        return Err(fetch_error("Expected `FETCH (` but got ", s, i));
    }
    i = i + 7;
    let mut ret = UidFetchResponse {
        uid: 0,
        message_sequence_number: msn,
        flags: None,
        body: None,
        envelope: None,
    };
    let mut has_attachments = false;
    let ghost mut acc = FetchAcc {
        uid: 0,
        msn: msn as nat,
        flags: None,
        body: None,
        env: None,
        has_att: false,
    };
    assert(fetch_holds(s@, ret, acc));
    loop
        invariant_except_break
            start < i <= s@.len(),
            ret.body matches Some(b) ==> body_is_literal(s@, b@),
            fetch_holds(s@, ret, acc),
            has_attachments == acc.has_att,
            fetch_item(s@, start as int) == fetch_fold(s@, i as int, acc),
        ensures
            start < i <= s@.len(),
            ret.body matches Some(b) ==> body_is_literal(s@, b@),
            fetch_holds(s@, ret, acc),
            has_attachments == acc.has_att,
            fetch_item(s@, start as int) == Some((i as int, acc)),
        decreases s@.len() - i,
    {
        proof {
            lemma_fetch_lits();
        }
        i = skip_spaces(s, i);
        if i == s.len() {
            break ;
        }
        if starts_with_at(s, i, "UID ".as_bytes()) {
            match parse_decimal(s, i + 4) {
                Some((v, e)) => {
                    ret.uid = v;
                    proof {
                        acc = FetchAcc { uid: v as nat, ..acc };
                    }
                    i = e;
                },
                None => {
                    return Err(fetch_error(
                        "Unexpected input while parsing UID FETCH response. Got: ",
                        s,
                        start,
                    ));
                },
            }
        } else if starts_with_at(s, i, "FLAGS (".as_bytes()) {
            let (rest, f, kw) = flags(s, i + 7);
            if rest >= s.len() || s[rest] != 41 {
                return Err(fetch_error(
                    "Unexpected input while parsing UID FETCH response. Got: ",
                    s,
                    start,
                ));
            }
            proof {
                acc = FetchAcc { flags: Some((f, views(kw@))), ..acc };
            }
            ret.flags = Some((f, kw));
            i = rest + 1;
        } else if starts_with_at(s, i, "RFC822 {".as_bytes()) {
            match literal(s, i + 7) {
                Some((a, b)) => {
                    let body = &s[a..b];
                    proof {
                        assert(literal_at(s@, i + 7) == Some((a as int, b as int)));
                        assert(body_is_literal(s@, body@));
                        acc = FetchAcc { body: Some((a as int, b as int)), ..acc };
                    }
                    ret.body = Some(body);
                    i = b;
                },
                None => {
                    return Err(fetch_error(
                        "Unexpected input while parsing UID FETCH response. Got: ",
                        s,
                        start,
                    ));
                },
            }
        } else if starts_with_at(s, i, "ENVELOPE (".as_bytes()) {
            match envelope(s, i + 9) {
                Some((env, e)) => {
                    proof {
                        acc = FetchAcc { env: Some(envelope_at(s@, i + 9).unwrap().0), ..acc };
                    }
                    ret.envelope = Some(env);
                    i = e;
                },
                None => {
                    return Err(fetch_error(
                        "Unexpected input while parsing UID FETCH response. Got: ",
                        s,
                        i,
                    ));
                },
            }
        } else if starts_with_at(s, i, "BODYSTRUCTURE ".as_bytes()) {
            let b0 = i + 14;
            match bodystructure_end(s, b0) {
                Some(e) => {
                    has_attachments = bodystructure_has_attachments(&s[b0..e]);
                    proof {
                        acc = FetchAcc { has_att: has_attachments, ..acc };
                    }
                    i = if e > i {
                        e
                    } else {
                        i + 1
                    };
                },
                None => {
                    return Err(fetch_error(
                        "Unexpected input while parsing UID FETCH response. Got: ",
                        s,
                        b0,
                    ));
                },
            }
        } else if starts_with_at(s, i, ")\r\n".as_bytes()) {
            i = i + 3;
            break ;
        } else {
            return Err(fetch_error(
                "Got unexpected token while parsing UID FETCH response: ",
                s,
                i,
            ));
        }
        if i >= s.len() {
            proof {
                lemma_spaces_end(s@, i as int);
            }
            break ;
        }
    }
    match ret.envelope {
        Some(mut env) => {
            env.has_attachments = has_attachments;
            ret.envelope = Some(env);
        },
        None => {},
    }
    Ok((i, ret))
}

/// The FETCH responses that follow one another from `p`, each starting
/// where the last ended: their end and what each gave.
pub open spec fn fetch_items(s: Seq<u8>, p: int) -> Option<(int, Seq<FetchAcc>)>
    decreases s.len() - p,
{
    if p < 0 || p > s.len() {
        None
    } else {
        match fetch_item(s, p) {
            None => None,
            Some((e, acc)) => if !(p < e <= s.len()) {
                None
            } else if has_prefix_at(s, e, "* ".spec_bytes()) {
                match fetch_items(s, e) {
                    Some((k, rest)) => Some((k, seq![acc] + rest)),
                    None => None,
                }
            } else {
                Some((e, seq![acc]))
            },
        }
    }
}

/// Reads consecutive FETCH responses from the start of `s`, as long as
/// another one follows.
pub fn uid_fetch_responses<'a>(s: &'a [u8]) -> (r: Result<(usize, Vec<UidFetchResponse<'a>>), MeliError>)
    ensures
        match fetch_items(s@, 0) {
            None => r is Err,
            Some((e, accs)) => r matches Ok((end, v)) && end == e && v@.len() == accs.len()
                && forall|k: int| 0 <= k < v@.len() ==> #[trigger] fetch_holds(s@, v@[k], accs[k]),
        },
        r matches Ok((e, v)) ==> e <= s@.len() && v@.len() > 0 && forall|k: int|
            0 <= k < v@.len() ==> (#[trigger] v@[k].body matches Some(b) ==> body_is_literal(s@, b@)),
{
    let mut ret: Vec<UidFetchResponse<'a>> = Vec::new();
    let mut p: usize = 0;
    let ghost mut accs: Seq<FetchAcc> = Seq::empty();
    loop
        invariant_except_break
            p <= s@.len(),
            ret@.len() == accs.len(),
            ret@.len() == 0 ==> p == 0,
            forall|k: int| 0 <= k < ret@.len() ==> #[trigger] fetch_holds(s@, ret@[k], accs[k]),
            forall|k: int|
                0 <= k < ret@.len() ==> (#[trigger] ret@[k].body matches Some(b) ==> body_is_literal(
                    s@,
                    b@,
                )),
            fetch_items(s@, 0) == match fetch_items(s@, p as int) {
                Some((k, rest)) => Some((k, accs + rest)),
                None => None,
            },
        ensures
            p <= s@.len(),
            ret@.len() > 0,
            ret@.len() == accs.len(),
            fetch_items(s@, 0) == Some((p as int, accs)),
            forall|k: int| 0 <= k < ret@.len() ==> #[trigger] fetch_holds(s@, ret@[k], accs[k]),
            forall|k: int|
                0 <= k < ret@.len() ==> (#[trigger] ret@[k].body matches Some(b) ==> body_is_literal(
                    s@,
                    b@,
                )),
        decreases s@.len() - p,
    {
        proof {
            lemma_fetch_lits();
        }
        match uid_fetch_response(s, p) {
            Ok((e, el)) => {
                let ghost r0 = ret@;
                let ghost a0 = accs;
                let ghost acc = fetch_item(s@, p as int).unwrap().1;
                let ghost p0 = p as int;
                p = e;
                ret.push(el);
                proof {
                    accs = accs.push(acc);
                    assert forall|k: int| 0 <= k < ret@.len() implies (#[trigger] ret@[k].body matches Some(
                        b,
                    ) ==> body_is_literal(s@, b@)) by {
                        if k < r0.len() {
                            assert(ret@[k] == r0[k]);
                        }
                    }
                    assert forall|k: int| 0 <= k < ret@.len() implies #[trigger] fetch_holds(
                        s@,
                        ret@[k],
                        accs[k],
                    ) by {
                        if k < r0.len() {
                            assert(ret@[k] == r0[k]);
                            assert(accs[k] == a0[k]);
                        }
                    }
                    match fetch_items(s@, e as int) {
                        Some((k, rest)) => {
                            assert(a0 + (seq![acc] + rest) =~= accs + rest);
                        },
                        None => {},
                    }
                    assert(a0 + seq![acc] =~= accs);
                }
                if !starts_with_at(s, p, "* ".as_bytes()) {
                    break ;
                }
            },
            Err(err) => {
                let msg = String::from_str(
                    "Unexpected input while parsing UID FETCH responses: ",
                ).concat(err.details.as_str());
                return Err(MeliError::new(msg));
            },
        }
    }
    Ok((p, ret))
}

} // verus!

verus! {

/// What SELECT or EXAMINE reports of a mailbox.
#[derive(Debug)]
pub struct SelectResponse {
    pub exists: usize,
    pub recent: usize,
    pub flags: (Flag, Vec<Vec<u8>>),
    pub unseen: usize,
    pub uidvalidity: usize,
    pub uidnext: usize,
    pub permanentflags: (Flag, Vec<Vec<u8>>),
    /// `\*` among the permanent flags: new keywords can be stored.
    pub can_create_flags: bool,
    pub read_only: bool,
}

/// The number that fills `l[a..b]` exactly.
pub open spec fn number_in_spec(l: Seq<u8>, a: int, b: int) -> Option<nat> {
    match decimal_at(l, a) {
        Some((v, e)) => if e == b {
            Some(v)
        } else {
            None
        },
        None => None,
    }
}

/// The number that fills `l[a..]` up to the first `]`.
pub open spec fn bracket_number(l: Seq<u8>, a: int) -> Option<nat> {
    match find_spec(l, a, "]".spec_bytes()) {
        Some(e) => number_in_spec(l, a, e),
        None => None,
    }
}

/// The counters and modes of a SELECT response: EXISTS, RECENT, UNSEEN,
/// UIDVALIDITY, UIDNEXT, whether keywords can be created, read-only.
pub open spec fn counts_of(r: SelectResponse) -> (nat, nat, nat, nat, nat, bool, bool) {
    (
        r.exists as nat,
        r.recent as nat,
        r.unseen as nat,
        r.uidvalidity as nat,
        r.uidnext as nat,
        r.can_create_flags,
        r.read_only,
    )
}

/// What one line (without its CRLF) does to the counters; `None` for a
/// line that announces a count it does not give.
pub open spec fn select_line_effect(l: Seq<u8>, c: (nat, nat, nat, nat, nat, bool, bool)) -> Option<
    (nat, nat, nat, nat, nat, bool, bool),
> {
    let n = l.len() as int;
    if has_prefix_at(l, 0, "* ".spec_bytes()) && crate::bytes::has_suffix(l, " EXISTS".spec_bytes())
        && n >= 9 {
        match number_in_spec(l, 2, n - 7) {
            Some(v) => Some((v, c.1, c.2, c.3, c.4, c.5, c.6)),
            None => None,
        }
    } else if has_prefix_at(l, 0, "* ".spec_bytes()) && crate::bytes::has_suffix(
        l,
        " RECENT".spec_bytes(),
    ) && n >= 9 {
        match number_in_spec(l, 2, n - 7) {
            Some(v) => Some((c.0, v, c.2, c.3, c.4, c.5, c.6)),
            None => None,
        }
    } else if has_prefix_at(l, 0, "* FLAGS (".spec_bytes()) && n >= 10 {
        Some(c)
    } else if has_prefix_at(l, 0, "* OK [UNSEEN ".spec_bytes()) {
        match bracket_number(l, 13) {
            Some(v) => Some((c.0, c.1, v, c.3, c.4, c.5, c.6)),
            None => None,
        }
    } else if has_prefix_at(l, 0, "* OK [UIDVALIDITY ".spec_bytes()) {
        match bracket_number(l, 18) {
            Some(v) => Some((c.0, c.1, c.2, v, c.4, c.5, c.6)),
            None => None,
        }
    } else if has_prefix_at(l, 0, "* OK [UIDNEXT ".spec_bytes()) {
        match bracket_number(l, 14) {
            Some(v) => Some((c.0, c.1, c.2, c.3, v, c.5, c.6)),
            None => None,
        }
    } else if has_prefix_at(l, 0, "* OK [PERMANENTFLAGS (".spec_bytes()) {
        match find_spec(l, 22, ")".spec_bytes()) {
            Some(_) => Some(
                (c.0, c.1, c.2, c.3, c.4, crate::bytes::occurs_from(l, 0, "\\*".spec_bytes()), c.6),
            ),
            None => None,
        }
    } else if crate::bytes::occurs_from(l, 0, "OK [READ-WRITE]".spec_bytes()) {
        Some((c.0, c.1, c.2, c.3, c.4, c.5, false))
    } else if crate::bytes::occurs_from(l, 0, "OK [READ-ONLY]".spec_bytes()) {
        Some((c.0, c.1, c.2, c.3, c.4, c.5, true))
    } else {
        Some(c)
    }
}

/// The flags and the permanent flags of a SELECT response, as read.
pub open spec fn flags_of(r: SelectResponse) -> ((Flag, Seq<Seq<u8>>), (Flag, Seq<Seq<u8>>)) {
    ((r.flags.0, views(r.flags.1@)), (r.permanentflags.0, views(r.permanentflags.1@)))
}

/// What one line (without its CRLF) does to the flags and the permanent
/// flags: a `* FLAGS (...)` line sets the first, a `* OK [PERMANENTFLAGS
/// (...)]` line the second, by `flags_from`.
pub open spec fn select_flags_effect(l: Seq<u8>, f: ((Flag, Seq<Seq<u8>>), (Flag, Seq<Seq<u8>>))) -> (
    (Flag, Seq<Seq<u8>>),
    (Flag, Seq<Seq<u8>>),
) {
    let n = l.len() as int;
    if has_prefix_at(l, 0, "* ".spec_bytes()) && (crate::bytes::has_suffix(l, " EXISTS".spec_bytes())
        || crate::bytes::has_suffix(l, " RECENT".spec_bytes())) && n >= 9 {
        f
    } else if has_prefix_at(l, 0, "* FLAGS (".spec_bytes()) && n >= 10 {
        let fl = flags_from(l.subrange(0, n - 1), 9);
        ((fl.1, fl.2), f.1)
    } else if has_prefix_at(l, 0, "* OK [UNSEEN ".spec_bytes()) || has_prefix_at(
        l,
        0,
        "* OK [UIDVALIDITY ".spec_bytes(),
    ) || has_prefix_at(l, 0, "* OK [UIDNEXT ".spec_bytes()) {
        f
    } else if has_prefix_at(l, 0, "* OK [PERMANENTFLAGS (".spec_bytes()) {
        match find_spec(l, 22, ")".spec_bytes()) {
            Some(e) => {
                let fl = flags_from(l.subrange(0, e), 22);
                (f.0, (fl.1, fl.2))
            },
            None => f,
        }
    } else {
        f
    }
}

#[via_fn]
proof fn select_flags_fold_decreases(
    s: Seq<u8>,
    p: int,
    f: ((Flag, Seq<Seq<u8>>), (Flag, Seq<Seq<u8>>)),
) {
    if !(p < 0 || p >= s.len()) {
        lemma_find_spec_ge(s, p, "\r\n".spec_bytes());
        lemma_select_lits();
        let (e, next) = line_bounds(s, p);
        assert(p < next <= s.len());
    }
}

/// The flags after the lines of `s` from `p` on.
pub open spec fn select_flags_fold(
    s: Seq<u8>,
    p: int,
    f: ((Flag, Seq<Seq<u8>>), (Flag, Seq<Seq<u8>>)),
) -> ((Flag, Seq<Seq<u8>>), (Flag, Seq<Seq<u8>>))
    decreases s.len() - p,
    via select_flags_fold_decreases
{
    if p < 0 || p >= s.len() {
        f
    } else {
        let (e, next) = line_bounds(s, p);
        select_flags_fold(s, next, select_flags_effect(s.subrange(p, e), f))
    }
}

/// Where the line that starts at `p` ends, and where the next one starts.
pub open spec fn line_bounds(s: Seq<u8>, p: int) -> (int, int) {
    match find_spec(s, p, "\r\n".spec_bytes()) {
        Some(e) => (e, e + 2),
        None => (s.len() as int, s.len() as int),
    }
}

proof fn lemma_find_spec_ge(s: Seq<u8>, from: int, pat: Seq<u8>)
    ensures
        find_spec(s, from, pat) matches Some(e) ==> from <= e && has_prefix_at(s, e, pat),
    decreases s.len() + 1 - from,
{
    if !(from < 0 || from > s.len()) && !has_prefix_at(s, from, pat) {
        lemma_find_spec_ge(s, from + 1, pat);
    }
}

#[via_fn]
proof fn select_fold_decreases(s: Seq<u8>, p: int, c: (nat, nat, nat, nat, nat, bool, bool)) {
    if !(p < 0 || p >= s.len()) {
        lemma_find_spec_ge(s, p, "\r\n".spec_bytes());
        lemma_select_lits();
        let (e, next) = line_bounds(s, p);
        assert(p < next <= s.len());
    }
}

/// The counters after the lines of `s` from `p` on, split at CRLF.
pub open spec fn select_fold(s: Seq<u8>, p: int, c: (nat, nat, nat, nat, nat, bool, bool)) -> Option<
    (nat, nat, nat, nat, nat, bool, bool),
>
    decreases s.len() - p,
    via select_fold_decreases
{
    if p < 0 || p >= s.len() {
        Some(c)
    } else {
        let (e, next) = line_bounds(s, p);
        match select_line_effect(s.subrange(p, e), c) {
            None => None,
            Some(c2) => select_fold(s, next, c2),
        }
    }
}

/// The number that fills `l[a..b]` exactly.
fn number_in(l: &[u8], a: usize, b: usize) -> (r: Option<usize>)
    requires
        a <= b <= l@.len(),
    ensures
        number_in_spec(l@, a as int, b as int) == match r {
            Some(v) => Some(v as nat),
            None => None,
        },
{
    match parse_decimal(l, a) {
        Some((v, e)) => if e == b {
            Some(v)
        } else {
            None
        },
        None => None,
    }
}

fn select_error(l: &[u8]) -> (r: MeliError) {
    MeliError::new(String::from_str("Could not parse SELECT response line: ").concat(
        crate::bytes::text_from_bytes(l).as_str(),
    ))
}

/// Reads one line of a SELECT response into `ret`.
fn select_line(l: &[u8], ret: &mut SelectResponse) -> (r: Result<(), MeliError>)
    ensures
        r is Ok ==> flags_of(*final(ret)) == select_flags_effect(l@, flags_of(*old(ret))),
        select_line_effect(l@, counts_of(*old(ret))) == match r {
            Ok(_) => Some(counts_of(*final(ret))),
            Err(_) => None,
        },
{
    proof {
        lemma_select_lits();
    }
    let n = l.len();
    if starts_with_at(l, 0, "* ".as_bytes()) && crate::bytes::ends_with(l, " EXISTS".as_bytes())
        && n >= 9 {
        match number_in(l, 2, n - 7) {
            Some(v) => ret.exists = v,
            None => {
                return Err(select_error(l));
            },
        }
    } else if starts_with_at(l, 0, "* ".as_bytes()) && crate::bytes::ends_with(
        l,
        " RECENT".as_bytes(),
    ) && n >= 9 {
        match number_in(l, 2, n - 7) {
            Some(v) => ret.recent = v,
            None => {
                return Err(select_error(l));
            },
        }
    } else if starts_with_at(l, 0, "* FLAGS (".as_bytes()) && n >= 10 {
        let (_, f, kw) = flags(&l[0..n - 1], 9);
        ret.flags = (f, kw);
    } else if starts_with_at(l, 0, "* OK [UNSEEN ".as_bytes()) {
        match find_from(l, 13, "]".as_bytes()) {
            Some(e) => match number_in(l, 13, e) {
                Some(v) => ret.unseen = v,
                None => {
                    return Err(select_error(l));
                },
            },
            None => {
                return Err(select_error(l));
            },
        }
    } else if starts_with_at(l, 0, "* OK [UIDVALIDITY ".as_bytes()) {
        match find_from(l, 18, "]".as_bytes()) {
            Some(e) => match number_in(l, 18, e) {
                Some(v) => ret.uidvalidity = v,
                None => {
                    return Err(select_error(l));
                },
            },
            None => {
                return Err(select_error(l));
            },
        }
    } else if starts_with_at(l, 0, "* OK [UIDNEXT ".as_bytes()) {
        match find_from(l, 14, "]".as_bytes()) {
            Some(e) => match number_in(l, 14, e) {
                Some(v) => ret.uidnext = v,
                None => {
                    return Err(select_error(l));
                },
            },
            None => {
                return Err(select_error(l));
            },
        }
    } else if starts_with_at(l, 0, "* OK [PERMANENTFLAGS (".as_bytes()) {
        match find_from(l, 22, ")".as_bytes()) {
            Some(e) => {
                let (_, f, kw) = flags(&l[0..e], 22);
                ret.permanentflags = (f, kw);
                ret.can_create_flags = crate::bytes::contains(l, "\\*".as_bytes());
            },
            None => {
                return Err(select_error(l));
            },
        }
    } else if crate::bytes::contains(l, "OK [READ-WRITE]".as_bytes()) {
        ret.read_only = false;
    } else if crate::bytes::contains(l, "OK [READ-ONLY]".as_bytes()) {
        ret.read_only = true;
    }
    Ok(())
}

proof fn lemma_select_lits()
    ensures
        "* ".spec_bytes().len() == 2,
        "* FLAGS (".spec_bytes().len() == 9,
        "* OK [UNSEEN ".spec_bytes().len() == 13,
        "* OK [UIDVALIDITY ".spec_bytes().len() == 18,
        "* OK [UIDNEXT ".spec_bytes().len() == 14,
        "* OK [PERMANENTFLAGS (".spec_bytes().len() == 22,
        "\r\n".spec_bytes().len() == 2,
        " EXISTS".spec_bytes().len() == 7,
        " RECENT".spec_bytes().len() == 7,
        "]".spec_bytes().len() == 1,
        ")".spec_bytes().len() == 1,
{
    reveal_strlit(" EXISTS");
    assert(vstd::string::is_ascii(" EXISTS"));
    reveal_strlit(" RECENT");
    assert(vstd::string::is_ascii(" RECENT"));
    reveal_strlit("]");
    assert(vstd::string::is_ascii("]"));
    reveal_strlit(")");
    assert(vstd::string::is_ascii(")"));
    reveal_strlit("* ");
    assert(vstd::string::is_ascii("* "));
    reveal_strlit("* FLAGS (");
    assert(vstd::string::is_ascii("* FLAGS ("));
    reveal_strlit("* OK [UNSEEN ");
    assert(vstd::string::is_ascii("* OK [UNSEEN "));
    reveal_strlit("* OK [UIDVALIDITY ");
    assert(vstd::string::is_ascii("* OK [UIDVALIDITY "));
    reveal_strlit("* OK [UIDNEXT ");
    assert(vstd::string::is_ascii("* OK [UIDNEXT "));
    reveal_strlit("* OK [PERMANENTFLAGS (");
    assert(vstd::string::is_ascii("* OK [PERMANENTFLAGS ("));
    reveal_strlit("\r\n");
    assert(vstd::string::is_ascii("\r\n"));
}

/// Reads the untagged lines of a SELECT or EXAMINE response. Fails with
/// the whole text where no `* OK` line is present, and on a count that is
/// not a number.
pub fn select_response(input: &[u8]) -> (r: Result<SelectResponse, MeliError>)
    ensures
        !crate::bytes::occurs_from(input@, 0, "* OK".spec_bytes()) ==> r is Err,
        crate::bytes::occurs_from(input@, 0, "* OK".spec_bytes()) ==> match select_fold(
            input@,
            0,
            (0, 0, 0, 0, 0, false, false),
        ) {
            Some(c) => r matches Ok(v) && counts_of(v) == c && flags_of(v) == select_flags_fold(
                input@,
                0,
                ((no_flags(), Seq::empty()), (no_flags(), Seq::empty())),
            ),
            None => r is Err,
        },
{
    proof {
        lemma_select_lits();
    }
    if !crate::bytes::contains(input, "* OK".as_bytes()) {
        return Err(MeliError::new(crate::bytes::text_from_bytes(input)));
    }
    let mut ret = SelectResponse {
        exists: 0,
        recent: 0,
        flags: (Flag::empty(), Vec::new()),
        unseen: 0,
        uidvalidity: 0,
        uidnext: 0,
        permanentflags: (Flag::empty(), Vec::new()),
        can_create_flags: false,
        read_only: false,
    };
    assert(views(ret.flags.1@) =~= Seq::<Seq<u8>>::empty());
    assert(views(ret.permanentflags.1@) =~= Seq::<Seq<u8>>::empty());
    let mut p: usize = 0;
    while p < input.len()
        invariant
            p <= input@.len(),
            crate::bytes::occurs_from(input@, 0, "* OK".spec_bytes()),
            select_fold(input@, 0, (0, 0, 0, 0, 0, false, false)) == select_fold(
                input@,
                p as int,
                counts_of(ret),
            ),
            select_flags_fold(input@, 0, ((no_flags(), Seq::empty()), (no_flags(), Seq::empty())))
                == select_flags_fold(input@, p as int, flags_of(ret)),
        decreases input@.len() - p,
    {
        proof {
            lemma_select_lits();
            lemma_find_spec_ge(input@, p as int, "\r\n".spec_bytes());
        }
        let (e, next) = match find_from(input, p, "\r\n".as_bytes()) {
            Some(e) => (e, e + 2),
            None => (input.len(), input.len()),
        };
        select_line(&input[p..e], &mut ret)?;
        p = next;
    }
    Ok(ret)
}

/// The list of numbers separated by single blanks and ended by CRLF that
/// starts at `i`, and the position after it.
pub open spec fn number_list(s: Seq<u8>, i: int) -> Option<(Seq<nat>, int)>
    decreases s.len() - i,
    via number_list_decreases
{
    match decimal_at(s, i) {
        None => None,
        Some((v, e)) => if has_prefix_at(s, e, " ".spec_bytes()) && 0 <= i {
            match number_list(s, e + 1) {
                Some((vs, k)) => Some((seq![v] + vs, k)),
                None => None,
            }
        } else if has_prefix_at(s, e, "\r\n".spec_bytes()) {
            Some((seq![v], e + 2))
        } else {
            None
        },
    }
}

proof fn lemma_digits_end(s: Seq<u8>, i: int)
    requires
        0 <= i,
    ensures
        i <= crate::bytes::digits_end(s, i),
        i <= s.len() ==> crate::bytes::digits_end(s, i) <= s.len(),
    decreases s.len() - i,
{
    if !(i < 0 || i >= s.len() || !crate::bytes::is_digit(s[i])) {
        lemma_digits_end(s, i + 1);
    }
}

#[via_fn]
proof fn number_list_decreases(s: Seq<u8>, i: int) {
    if let Some((v, e)) = decimal_at(s, i) {
        if 0 <= i {
            lemma_digits_end(s, i);
            reveal_strlit(" ");
            assert(vstd::string::is_ascii(" "));
        }
    }
}

/// The numbers of a `* SEARCH` line: `* SEARCH\r\n` gives none.
pub open spec fn search_spec(s: Seq<u8>) -> Option<(Seq<nat>, int)> {
    if has_prefix_at(s, 0, "* SEARCH ".spec_bytes()) {
        number_list(s, 9)
    } else if has_prefix_at(s, 0, "* SEARCH\r\n".spec_bytes()) {
        Some((Seq::empty(), 10))
    } else {
        None
    }
}

/// Reads the UIDs of a `* SEARCH` line.
pub fn search_results(s: &[u8]) -> (r: Result<(usize, Vec<usize>), MeliError>)
    ensures
        match search_spec(s@) {
            Some((vs, e)) => r matches Ok((end, v)) && end == e && v@.map_values(|x: usize| x as nat)
                == vs,
            None => r is Err,
        },
{
    proof {
        reveal_strlit("* SEARCH ");
        assert(vstd::string::is_ascii("* SEARCH "));
        reveal_strlit("* SEARCH\r\n");
        assert(vstd::string::is_ascii("* SEARCH\r\n"));
        reveal_strlit(" ");
        assert(vstd::string::is_ascii(" "));
        reveal_strlit("\r\n");
        assert(vstd::string::is_ascii("\r\n"));
    }
    if starts_with_at(s, 0, "* SEARCH ".as_bytes()) {
        let mut v: Vec<usize> = Vec::new();
        let mut p: usize = 9;
        assert(v@.map_values(|x: usize| x as nat) =~= Seq::<nat>::empty());
        loop
            invariant
                9 <= p <= s@.len(),
                " ".spec_bytes() =~= seq![32u8],
                "\r\n".spec_bytes() =~= seq![13u8, 10u8],
                search_spec(s@) == match number_list(s@, p as int) {
                    Some((vs, k)) => Some((v@.map_values(|x: usize| x as nat) + vs, k)),
                    None => None,
                },
            decreases s@.len() - p,
        {
            match parse_decimal(s, p) {
                None => {
                    return Err(MeliError::from_str("Could not parse SEARCH response"));
                },
                Some((n, e)) => {
                    let ghost v0 = v@;
                    v.push(n);
                    proof {
                        assert(v@.map_values(|x: usize| x as nat) =~= v0.map_values(
                            |x: usize| x as nat,
                        ).push(n as nat));
                    }
                    if e < s.len() && s[e] == 32 {
                        proof {
                            assert(s@.subrange(e as int, e + 1) =~= seq![32u8]);
                            match number_list(s@, e + 1) {
                                Some((vs, k)) => {
                                    assert(v@.map_values(|x: usize| x as nat) + vs =~= v0.map_values(
                                        |x: usize| x as nat,
                                    ) + (seq![n as nat] + vs));
                                },
                                None => {},
                            }
                        }
                        p = e + 1;
                    } else if starts_with_at(s, e, "\r\n".as_bytes()) {
                        proof {
                            if has_prefix_at(s@, e as int, " ".spec_bytes()) {
                                assert(s@.subrange(e as int, e + 1)[0] == s@[e as int]);
                            }
                            assert(v@.map_values(|x: usize| x as nat) + Seq::<nat>::empty() =~= v0.map_values(
                                |x: usize| x as nat,
                            ) + seq![n as nat]);
                        }
                        return Ok((e + 2, v));
                    } else {
                        proof {
                            if has_prefix_at(s@, e as int, " ".spec_bytes()) {
                                assert(s@.subrange(e as int, e + 1)[0] == s@[e as int]);
                            }
                        }
                        return Err(MeliError::from_str("Could not parse SEARCH response"));
                    }
                },
            }
        }
    } else if starts_with_at(s, 0, "* SEARCH\r\n".as_bytes()) {
        let v: Vec<usize> = Vec::new();
        assert(v@.map_values(|x: usize| x as nat) =~= Seq::<nat>::empty());
        Ok((10, v))
    } else {
        Err(MeliError::from_str("Could not parse SEARCH response"))
    }
}

/// The text of a `* SEARCH` line after the keyword, up to CRLF.
pub fn search_results_raw(s: &[u8]) -> (r: Result<(usize, &[u8]), MeliError>)
    ensures
        has_prefix_at(s@, 0, "* SEARCH ".spec_bytes()) ==> match find_spec(
            s@,
            9,
            "\r\n".spec_bytes(),
        ) {
            Some(j) => r matches Ok((e, t)) && e == j + 2 && t@ == s@.subrange(9, j),
            None => r is Err,
        },
        !has_prefix_at(s@, 0, "* SEARCH ".spec_bytes()) && has_prefix_at(
            s@,
            0,
            "* SEARCH\r\n".spec_bytes(),
        ) ==> (r matches Ok((e, t)) && e == 10 && t@.len() == 0),
{
    proof {
        reveal_strlit("* SEARCH ");
        assert(vstd::string::is_ascii("* SEARCH "));
        reveal_strlit("\r\n");
        assert(vstd::string::is_ascii("\r\n"));
    }
    assert("\r\n".spec_bytes().len() == 2);
    if starts_with_at(s, 0, "* SEARCH ".as_bytes()) {
        match find_from(s, 9, "\r\n".as_bytes()) {
            Some(j) => {
                let n = s.len();
                assert(j + 2 <= n);
                Ok((j + 2, &s[9..j]))
            },
            None => Err(MeliError::from_str("Could not parse SEARCH response")),
        }
    } else if starts_with_at(s, 0, "* SEARCH\r\n".as_bytes()) {
        Ok((10, &s[0..0]))
    } else {
        Err(MeliError::from_str("Could not parse SEARCH response"))
    }
}

} // verus!

verus! {

/// Text the server wants the user to see.
#[derive(Debug)]
pub struct Alert(pub String);

/// A byte that ends a capability name.
pub open spec fn ends_capability(b: u8) -> bool {
    b == 32 || b == 93 || b == 13 || b == 10
}

/// Where the capability name that starts at `p` ends.
pub open spec fn cap_end(s: Seq<u8>, p: int) -> int
    decreases s.len() - p,
{
    if p < 0 || p >= s.len() || ends_capability(s[p]) {
        p
    } else {
        cap_end(s, p + 1)
    }
}

proof fn lemma_cap_end(s: Seq<u8>, p: int)
    requires
        0 <= p <= s.len(),
    ensures
        p <= cap_end(s, p) <= s.len(),
    decreases s.len() - p,
{
    if !(p < 0 || p >= s.len() || ends_capability(s[p])) {
        lemma_cap_end(s, p + 1);
    }
}

#[via_fn]
proof fn cap_words_decreases(s: Seq<u8>, p: int) {
    if 0 <= p <= s.len() {
        lemma_cap_end(s, p);
    }
}

/// The capability names separated by single blanks from `p` on, and where
/// they stop.
pub open spec fn cap_words(s: Seq<u8>, p: int) -> (Seq<Seq<u8>>, int)
    decreases s.len() - p,
    via cap_words_decreases
{
    if p < 0 || p > s.len() {
        (Seq::empty(), p)
    } else {
        let e = cap_end(s, p);
        if e == p {
            (Seq::empty(), p)
        } else if e < s.len() && s[e] == 32 {
            let rest = cap_words(s, e + 1);
            (seq![s.subrange(p, e)] + rest.0, rest.1)
        } else {
            (seq![s.subrange(p, e)], e)
        }
    }
}

/// The names that follow the first `CAPABILITY ` up to the end of its line,
/// and the position after that line's CRLF.
pub open spec fn capabilities_spec(s: Seq<u8>) -> Option<(int, Seq<Seq<u8>>)> {
    match find_spec(s, 0, "CAPABILITY ".spec_bytes()) {
        None => None,
        Some(c) => {
            let w = cap_words(s, c + 11);
            if w.0.len() == 0 {
                None
            } else {
                match find_spec(s, w.1, "\r\n".spec_bytes()) {
                    Some(q) => Some((q + 2, w.0)),
                    None => None,
                }
            }
        },
    }
}

/// Reads the capability names that follow `CAPABILITY ` up to the end of
/// the line.
pub fn capabilities(s: &[u8]) -> (r: Option<(usize, Vec<Vec<u8>>)>)
    ensures
        match capabilities_spec(s@) {
            None => r is None,
            Some((e, caps)) => r matches Some((end, v)) && end == e && views(v@) == caps,
        },
{
    proof {
        reveal_strlit("CAPABILITY ");
        assert(vstd::string::is_ascii("CAPABILITY "));
        reveal_strlit("\r\n");
        assert(vstd::string::is_ascii("\r\n"));
    }
    let n = s.len();
    let start = match find_from(s, 0, "CAPABILITY ".as_bytes()) {
        Some(p) => {
            assert(p + 11 <= n);
            p + 11
        },
        None => {
            return None;
        },
    };
    let mut caps: Vec<Vec<u8>> = Vec::new();
    let mut p = start;
    assert(views(caps@) + cap_words(s@, start as int).0 =~= cap_words(s@, start as int).0);
    loop
        invariant_except_break
            start <= p <= s@.len(),
            views(caps@) + cap_words(s@, p as int).0 == cap_words(s@, start as int).0,
            cap_words(s@, p as int).1 == cap_words(s@, start as int).1,
        ensures
            p <= s@.len(),
            views(caps@) == cap_words(s@, start as int).0,
            p == cap_words(s@, start as int).1,
        decreases s@.len() - p,
    {
        let mut e = p;
        while e < s.len() && !(s[e] == 32 || s[e] == 93 || s[e] == 13 || s[e] == 10)
            invariant
                p <= e <= s@.len(),
                cap_end(s@, e as int) == cap_end(s@, p as int),
            decreases s@.len() - e,
        {
            e += 1;
        }
        if e == p {
            assert(views(caps@) + Seq::<Seq<u8>>::empty() =~= views(caps@));
            break ;
        }
        let cap = crate::bytes::copy_bytes(&s[p..e]);
        let ghost c0 = views(caps@);
        caps.push(cap);
        assert(views(caps@) =~= c0.push(s@.subrange(p as int, e as int)));
        if e < s.len() && s[e] == 32 {
            assert(c0 + (seq![s@.subrange(p as int, e as int)] + cap_words(s@, e + 1).0) =~= views(caps@)
                + cap_words(s@, e + 1).0);
            p = e + 1;
        } else {
            assert(c0 + seq![s@.subrange(p as int, e as int)] =~= views(caps@));
            p = e;
            break ;
        }
    }
    if caps.len() == 0 {
        return None;
    }
    match find_from(s, p, "\r\n".as_bytes()) {
        Some(q) => {
            assert(q + 2 <= n);
            Some((q + 2, caps))
        },
        None => None,
    }
}

/// An untagged response that changes what the client knows of the
/// selected mailbox.
#[derive(Debug)]
pub enum UntaggedResponse {
    /// The message with this sequence number was removed.
    Expunge(usize),
    /// The mailbox holds this many messages.
    Exists(usize),
    /// This many messages are recent.
    Recent(usize),
    /// The flags of the message with this sequence number changed.
    Fetch(usize, (Flag, Vec<Vec<u8>>)),
    /// The server closes the connection.
    Bye { reason: Vec<u8> },
}

/// The line `* n KEYWORD\r\n` at the start of `s`: where it ends, `n`
/// and the keyword text.
pub open spec fn untagged_at(s: Seq<u8>) -> Option<(int, nat, Seq<u8>)> {
    if !has_prefix_at(s, 0, "* ".spec_bytes()) {
        None
    } else {
        match decimal_at(s, 2) {
            None => None,
            Some((num, p)) => if num <= usize::MAX && p < s.len() && s[p] == 32 {
                match find_spec(s, p + 1, "\r\n".spec_bytes()) {
                    Some(q) => Some((q + 2, num, s.subrange(p + 1, q))),
                    None => None,
                }
            } else {
                None
            },
        }
    }
}

/// Reads an untagged `* n KEYWORD` line: EXPUNGE, EXISTS, RECENT or a
/// FETCH of flags; `None` inside for any other keyword.
pub fn untagged_responses(s: &[u8]) -> (r: Option<(usize, Option<UntaggedResponse>)>)
    ensures
        match untagged_at(s@) {
            None => r is None,
            Some((e, num, kw)) => r matches Some((end, resp)) && end == e && (if kw
                == "EXPUNGE".spec_bytes() {
                resp == Some(UntaggedResponse::Expunge(num as usize))
            } else if kw == "EXISTS".spec_bytes() {
                resp == Some(UntaggedResponse::Exists(num as usize))
            } else if kw == "RECENT".spec_bytes() {
                resp == Some(UntaggedResponse::Recent(num as usize))
            } else if has_prefix_at(kw, 0, "FETCH (FLAGS (".spec_bytes()) {
                resp matches Some(UntaggedResponse::Fetch(n, (f, k))) && n == num && flags_from(
                    kw,
                    14,
                ).1 == f && flags_from(kw, 14).2 == views(k@)
            } else {
                resp is None
            }),
        },
{
    proof {
        reveal_strlit("* ");
        assert(vstd::string::is_ascii("* "));
        reveal_strlit("\r\n");
        assert(vstd::string::is_ascii("\r\n"));
    }
    if !starts_with_at(s, 0, "* ".as_bytes()) {
        return None;
    }
    let (num, p) = match parse_decimal(s, 2) {
        Some(x) => x,
        None => {
            return None;
        },
    };
    if p >= s.len() || s[p] != 32 {
        return None;
    }
    let q = match find_from(s, p + 1, "\r\n".as_bytes()) {
        Some(q) => q,
        None => {
            return None;
        },
    };
    let n = s.len();
    assert(q + 2 <= n);
    let kw = &s[p + 1..q];
    proof {
        reveal_strlit("FETCH (FLAGS (");
        assert(vstd::string::is_ascii("FETCH (FLAGS ("));
    }
    let resp = if crate::bytes::bytes_eq(kw, "EXPUNGE".as_bytes()) {
        Some(UntaggedResponse::Expunge(num))
    } else if crate::bytes::bytes_eq(kw, "EXISTS".as_bytes()) {
        Some(UntaggedResponse::Exists(num))
    } else if crate::bytes::bytes_eq(kw, "RECENT".as_bytes()) {
        Some(UntaggedResponse::Recent(num))
    } else if crate::bytes::starts_with(kw, "FETCH (FLAGS (".as_bytes()) {
        let (_, f, k) = flags(kw, 14);
        Some(UntaggedResponse::Fetch(num, (f, k)))
    } else {
        None
    };
    Some((q + 2, resp))
}

/// The counters a STATUS response reports; absent ones stay `None`.
#[derive(Debug, Default, Clone, Copy)]
pub struct StatusResponse {
    pub messages: Option<usize>,
    pub recent: Option<usize>,
    pub uidnext: Option<usize>,
    pub uidvalidity: Option<usize>,
    pub unseen: Option<usize>,
}

/// The attribute named at `p` of a STATUS list: its slot (messages,
/// recent, uidnext, uidvalidity, unseen) and the length of its name and
/// blank.
pub open spec fn status_key(s: Seq<u8>, p: int) -> Option<(int, int)> {
    if has_prefix_at(s, p, "MESSAGES ".spec_bytes()) {
        Some((0, 9))
    } else if has_prefix_at(s, p, "RECENT ".spec_bytes()) {
        Some((1, 7))
    } else if has_prefix_at(s, p, "UIDNEXT ".spec_bytes()) {
        Some((2, 8))
    } else if has_prefix_at(s, p, "UIDVALIDITY ".spec_bytes()) {
        Some((3, 12))
    } else if has_prefix_at(s, p, "UNSEEN ".spec_bytes()) {
        Some((4, 7))
    } else {
        None
    }
}

/// `r` with slot `slot` set to `v`.
pub open spec fn status_set(r: StatusResponse, slot: int, v: usize) -> StatusResponse {
    if slot == 0 {
        StatusResponse { messages: Some(v), ..r }
    } else if slot == 1 {
        StatusResponse { recent: Some(v), ..r }
    } else if slot == 2 {
        StatusResponse { uidnext: Some(v), ..r }
    } else if slot == 3 {
        StatusResponse { uidvalidity: Some(v), ..r }
    } else {
        StatusResponse { unseen: Some(v), ..r }
    }
}

proof fn lemma_status_lits()
    ensures
        "MESSAGES ".spec_bytes().len() == 9,
        "RECENT ".spec_bytes().len() == 7,
        "UIDNEXT ".spec_bytes().len() == 8,
        "UIDVALIDITY ".spec_bytes().len() == 12,
        "UNSEEN ".spec_bytes().len() == 7,
        ")\r\n".spec_bytes().len() == 3,
{
    reveal_strlit("MESSAGES ");
    assert(vstd::string::is_ascii("MESSAGES "));
    reveal_strlit("RECENT ");
    assert(vstd::string::is_ascii("RECENT "));
    reveal_strlit("UIDNEXT ");
    assert(vstd::string::is_ascii("UIDNEXT "));
    reveal_strlit("UIDVALIDITY ");
    assert(vstd::string::is_ascii("UIDVALIDITY "));
    reveal_strlit("UNSEEN ");
    assert(vstd::string::is_ascii("UNSEEN "));
    reveal_strlit(")\r\n");
    assert(vstd::string::is_ascii(")\r\n"));
}

#[via_fn]
proof fn status_fold_decreases(s: Seq<u8>, p: int, r: StatusResponse) {
    lemma_status_lits();
    if 0 <= p {
        lemma_digits_end(s, p + 9);
        lemma_digits_end(s, p + 7);
        lemma_digits_end(s, p + 8);
        lemma_digits_end(s, p + 12);
    }
}

/// The attributes from `p` on, up to `)` and CRLF: the end and the counters.
pub open spec fn status_fold(s: Seq<u8>, p: int, r: StatusResponse) -> Option<(int, StatusResponse)>
    decreases s.len() - p,
    via status_fold_decreases
{
    if p < 0 || p > s.len() {
        None
    } else if has_prefix_at(s, p, ")\r\n".spec_bytes()) {
        Some((p + 3, r))
    } else {
        match status_key(s, p) {
            None => None,
            Some((slot, kl)) => match decimal_at(s, p + kl) {
                None => None,
                Some((v, e)) => {
                    let next = if e < s.len() && s[e] == 32 {
                        e + 1
                    } else {
                        e
                    };
                    status_fold(s, next, status_set(r, slot, v as usize))
                },
            },
        }
    }
}

/// No counter known.
pub open spec fn status_none() -> StatusResponse {
    StatusResponse { messages: None, recent: None, uidnext: None, uidvalidity: None, unseen: None }
}

/// Reads `* STATUS mailbox (MESSAGES n RECENT n ...)`: the attributes may
/// come in any order; one given twice keeps its last value.
pub fn status_response(s: &[u8]) -> (r: Option<(usize, StatusResponse)>)
    ensures
        !has_prefix_at(s@, 0, "* STATUS ".spec_bytes()) ==> r is None,
        has_prefix_at(s@, 0, "* STATUS ".spec_bytes()) ==> match find_spec(s@, 9, " (".spec_bytes()) {
            None => r is None,
            Some(q) => match status_fold(s@, q + 2, status_none()) {
                None => r is None,
                Some((e, v)) => r == Some((e as usize, v)),
            },
        },
{
    proof {
        reveal_strlit("* STATUS ");
        assert(vstd::string::is_ascii("* STATUS "));
        reveal_strlit(" (");
        assert(vstd::string::is_ascii(" ("));
        lemma_status_lits();
    }
    if !starts_with_at(s, 0, "* STATUS ".as_bytes()) {
        return None;
    }
    let n = s.len();
    let mut p = match find_from(s, 9, " (".as_bytes()) {
        Some(q) => {
            assert(q + 2 <= n);
            q + 2
        },
        None => {
            return None;
        },
    };
    let ghost p0 = p;
    assert(find_spec(s@, 9, " (".spec_bytes()) == Some(p0 - 2));
    let mut ret = StatusResponse {
        messages: None,
        recent: None,
        uidnext: None,
        uidvalidity: None,
        unseen: None,
    };
    loop
        invariant
            9 <= p <= s@.len(),
            n == s@.len(),
            has_prefix_at(s@, 0, "* STATUS ".spec_bytes()),
            find_spec(s@, 9, " (".spec_bytes()) == Some(p0 - 2),
            status_fold(s@, p0 as int, status_none()) == status_fold(s@, p as int, ret),
        decreases s@.len() - p,
    {
        proof {
            lemma_status_lits();
        }
        if starts_with_at(s, p, ")\r\n".as_bytes()) {
            assert(p + 3 <= n);
            return Some((p + 3, ret));
        }
        let (slot, kl): (usize, usize) = if starts_with_at(s, p, "MESSAGES ".as_bytes()) {
            (0, 9)
        } else if starts_with_at(s, p, "RECENT ".as_bytes()) {
            (1, 7)
        } else if starts_with_at(s, p, "UIDNEXT ".as_bytes()) {
            (2, 8)
        } else if starts_with_at(s, p, "UIDVALIDITY ".as_bytes()) {
            (3, 12)
        } else if starts_with_at(s, p, "UNSEEN ".as_bytes()) {
            (4, 7)
        } else {
            return None;
        };
        assert(p + kl <= n);
        let (v, e) = match parse_decimal(s, p + kl) {
            Some(x) => x,
            None => {
                return None;
            },
        };
        if slot == 0 {
            ret.messages = Some(v);
        } else if slot == 1 {
            ret.recent = Some(v);
        } else if slot == 2 {
            ret.uidnext = Some(v);
        } else if slot == 3 {
            ret.uidvalidity = Some(v);
        } else {
            ret.unseen = Some(v);
        }
        p = if e < s.len() && s[e] == 32 {
            e + 1
        } else {
            e
        };
    }
}

} // verus!

verus! {

/// Text that can stand between double quotes as it is: no quote and no
/// backslash.
pub open spec fn plain_text(x: Seq<u8>) -> bool {
    forall|i: int| 0 <= i < x.len() ==> #[trigger] x[i] != 34 && x[i] != 92
}

/// `x` between double quotes.
pub open spec fn quote(x: Seq<u8>) -> Seq<u8> {
    seq![34u8] + x + seq![34u8]
}

/// The address structure of `name <mailbox@host>` as an ENVELOPE writes
/// it, without its parentheses: `"name" NIL "mailbox" "host"`.
pub open spec fn address_encoding(name: Seq<u8>, mailbox: Seq<u8>, host: Seq<u8>) -> Seq<u8> {
    quote(name) + seq![32u8, 78u8, 73u8, 76u8, 32u8] + quote(mailbox) + seq![32u8] + quote(host)
}

proof fn lemma_close_quote(s: Seq<u8>, j: int, n: int)
    requires
        1 <= j,
        0 <= n,
        j + n < s.len(),
        s[j + n] == 34,
        s[j + n - 1] != 92,
        forall|i: int| j <= i < j + n ==> #[trigger] s[i] != 34,
    ensures
        close_quote(s, j) == Some(j + n),
    decreases n,
{
    if n > 0 {
        lemma_close_quote(s, j + 1, n - 1);
    }
}

/// A quoted plain text at `i` reads back as that text.
proof fn lemma_quoted_at(s: Seq<u8>, i: int, x: Seq<u8>)
    requires
        0 <= i,
        i + x.len() + 2 <= s.len(),
        s.subrange(i, i + x.len() + 2) == quote(x),
        plain_text(x),
    ensures
        nstring_at(s, i) == Some((Some(x), i + x.len() + 2)),
{
    lemma_lits();
    let q = quote(x);
    assert(s[i] == q[0]);
    assert(s[i] == 34);
    assert(!has_prefix_at(s, i, "NIL".spec_bytes())) by {
        if has_prefix_at(s, i, "NIL".spec_bytes()) {
            assert(s.subrange(i, i + 3)[0] == s[i]);
        }
    }
    assert(!has_prefix_at(s, i, "{".spec_bytes())) by {
        if has_prefix_at(s, i, "{".spec_bytes()) {
            assert(s.subrange(i, i + 1)[0] == s[i]);
        }
    }
    assert forall|k: int| i + 1 <= k < i + 1 + x.len() implies #[trigger] s[k] != 34 by {
        assert(s[k] == q[k - i]);
        assert(q[k - i] == x[k - i - 1]);
    }
    assert(s[i + 1 + x.len()] == q[x.len() + 1 as int]);
    if x.len() > 0 {
        assert(s[i + x.len()] == q[x.len() as int]);
        assert(q[x.len() as int] == x[x.len() - 1]);
    }
    lemma_close_quote(s, i + 1, x.len() as int);
    assert(s.subrange(i + 1, i + 1 + x.len()) =~= x) by {
        assert forall|k: int| 0 <= k < x.len() implies s.subrange(i + 1, i + 1 + x.len())[k]
            == x[k] by {
            assert(s[i + 1 + k] == q[k + 1]);
        }
    }
}

/// Reading the encoding of an address with plain parts gives those parts
/// back: the name, the mailbox and the host, and the end of the encoding.
/// With the contract of `envelope_address` this fixes the rendered text
/// `name <mailbox@host>` and its offsets.
/// An address encoding that stands at `i` of `s`, whatever follows it,
/// reads back as its parts.
#[verifier::rlimit(80)]
proof fn lemma_address_at(s: Seq<u8>, i: int, name: Seq<u8>, mailbox: Seq<u8>, host: Seq<u8>)
    requires
        plain_text(name),
        plain_text(mailbox),
        plain_text(host),
        0 <= i,
        i + address_encoding(name, mailbox, host).len() <= s.len(),
        s.subrange(i, i + address_encoding(name, mailbox, host).len()) == address_encoding(
            name,
            mailbox,
            host,
        ),
    ensures
        address_at(s, i) == Some(
            (name, mailbox, Some(host), i + address_encoding(name, mailbox, host).len()),
        ),
{
    lemma_lits();
    let e = address_encoding(name, mailbox, host);
    let a = name.len() as int;
    let b = mailbox.len() as int;
    let c = host.len() as int;
    assert(e.len() == a + b + c + 12);
    assert forall|k: int| 0 <= k < e.len() implies #[trigger] s[i + k] == e[k] by {
        assert(s.subrange(i, i + e.len())[k] == s[i + k]);
    }
    assert(s.subrange(i, i + a + 2) =~= quote(name)) by {
        assert forall|k: int| 0 <= k < a + 2 implies s.subrange(i, i + a + 2)[k] == quote(name)[k] by {
            assert(s[i + k] == e[k]);
        }
    }
    lemma_quoted_at(s, i, name);
    assert(s[i + a + 2] == e[a + 2] && s[i + a + 3] == e[a + 3] && s[i + a + 4] == e[a + 4]
        && s[i + a + 5] == e[a + 5] && s[i + a + 6] == e[a + 6] && s[i + a + 7] == e[a + 7]);
    assert(spaces_end(s, i + a + 3) == i + a + 3);
    assert(spaces_end(s, i + a + 2) == i + a + 3);
    assert(s.subrange(i + a + 3, i + a + 6) =~= "NIL".spec_bytes());
    assert(nstring_at(s, i + a + 3) == Some((None::<Seq<u8>>, i + a + 6)));
    assert(spaces_end(s, i + a + 7) == i + a + 7);
    assert(spaces_end(s, i + a + 6) == i + a + 7);
    assert(s.subrange(i + a + 7, i + a + 7 + b + 2) =~= quote(mailbox)) by {
        assert forall|k: int| 0 <= k < b + 2 implies s.subrange(i + a + 7, i + a + 7 + b + 2)[k]
            == quote(mailbox)[k] by {
            assert(s[i + (a + 7 + k)] == e[a + 7 + k]);
        }
    }
    lemma_quoted_at(s, i + a + 7, mailbox);
    let e3 = i + a + b + 9;
    assert(s[e3] == e[a + b + 9] && s[e3 + 1] == e[a + b + 10]);
    assert(spaces_end(s, e3 + 1) == e3 + 1);
    assert(spaces_end(s, e3) == e3 + 1);
    assert(s.subrange(e3 + 1, e3 + 1 + c + 2) =~= quote(host)) by {
        assert forall|k: int| 0 <= k < c + 2 implies s.subrange(e3 + 1, e3 + 1 + c + 2)[k]
            == quote(host)[k] by {
            assert(s[i + (a + b + 10 + k)] == e[a + b + 10 + k]);
        }
    }
    lemma_quoted_at(s, e3 + 1, host);
}

/// Reading the encoding of an address with plain parts gives those parts
/// back: the name, the mailbox and the host, and the end of the encoding.
/// With the contract of `envelope_address` this fixes the rendered text
/// `name <mailbox@host>` and its offsets.
pub proof fn lemma_address_round_trip(name: Seq<u8>, mailbox: Seq<u8>, host: Seq<u8>)
    requires
        plain_text(name),
        plain_text(mailbox),
        plain_text(host),
    ensures
        address_at(address_encoding(name, mailbox, host), 0) == Some(
            (name, mailbox, Some(host), address_encoding(name, mailbox, host).len() as int),
        ),
{
    let e = address_encoding(name, mailbox, host);
    assert(e.subrange(0, e.len() as int) =~= e);
    lemma_address_at(e, 0, name, mailbox, host);
}

/// An address list of one address with plain parts, written as an
/// ENVELOPE writes it, `(("name" NIL "mailbox" "host"))`, reads back as
/// that one address. With the contract of `envelope_addresses` this fixes
/// its rendered text `name <mailbox@host>` and offsets.
pub proof fn lemma_address_list_round_trip(name: Seq<u8>, mailbox: Seq<u8>, host: Seq<u8>)
    requires
        plain_text(name),
        plain_text(mailbox),
        plain_text(host),
    ensures
        ({
            let l = seq![40u8, 40u8] + address_encoding(name, mailbox, host) + seq![41u8, 41u8];
            address_list_at(l, 0) == Some((Some(seq![(name, mailbox, Some(host))]), l.len() as int))
        }),
{
    lemma_lits();
    let e = address_encoding(name, mailbox, host);
    let l = seq![40u8, 40u8] + e + seq![41u8, 41u8];
    let n = e.len() as int;
    assert(l.subrange(2, 2 + n) =~= e);
    lemma_address_at(l, 2, name, mailbox, host);
    assert(l[0] == 40 && l[1] == 40 && l[2 + n] == 41 && l[3 + n] == 41);
    assert(!has_prefix_at(l, 0, "NIL".spec_bytes())) by {
        if has_prefix_at(l, 0, "NIL".spec_bytes()) {
            assert(l.subrange(0, 3)[0] == l[0]);
        }
    }
    assert(!has_prefix_at(l, 0, "\"\"".spec_bytes())) by {
        if has_prefix_at(l, 0, "\"\"".spec_bytes()) {
            assert(l.subrange(0, 2)[0] == l[0]);
        }
    }
    assert(spaces_end(l, 1) == 1);
    assert(address_items(l, 3 + n) == Some((Seq::<AddressParts>::empty(), 3 + n)));
    assert(address_items(l, 1) == Some((seq![(name, mailbox, Some(host))], 3 + n))) by {
        assert(seq![(name, mailbox, Some(host))] + Seq::<AddressParts>::empty() =~= seq![
            (name, mailbox, Some(host)),
        ]);
    }
}

} // verus!
