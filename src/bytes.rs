//! Byte-sequence primitives shared by the wire parser: prefix and suffix
//! tests, searching, whitespace skipping and unsigned decimal numbers.
use vstd::prelude::*;
use vstd::utf8::{decode_utf8, valid_utf8};

verus! {

/// `p` occurs in `s` starting at position `i`.
pub open spec fn has_prefix_at(s: Seq<u8>, i: int, p: Seq<u8>) -> bool {
    0 <= i && i + p.len() <= s.len() && s.subrange(i, i + p.len()) == p
}

pub open spec fn has_prefix(s: Seq<u8>, p: Seq<u8>) -> bool {
    has_prefix_at(s, 0, p)
}

pub open spec fn has_suffix(s: Seq<u8>, p: Seq<u8>) -> bool {
    p.len() <= s.len() && s.subrange(s.len() - p.len(), s.len() as int) == p
}

/// `p` occurs somewhere in `s` at or after position `from`.
pub open spec fn occurs_from(s: Seq<u8>, from: int, p: Seq<u8>) -> bool {
    exists|j: int| from <= j && #[trigger] has_prefix_at(s, j, p)
}

pub open spec fn is_digit(b: u8) -> bool {
    48 <= b <= 57
}

/// ASCII whitespace as the wire parser understands it: space, tab, CR, LF,
/// vertical tab and form feed.
pub open spec fn is_space(b: u8) -> bool {
    b == 32 || (9 <= b <= 13)
}

pub open spec fn all_digits(d: Seq<u8>) -> bool {
    forall|j: int| 0 <= j < d.len() ==> is_digit(#[trigger] d[j])
}

/// The value of a string of decimal digits.
pub open spec fn dec_value(d: Seq<u8>) -> nat
    decreases d.len(),
{
    if d.len() == 0 {
        0
    } else {
        dec_value(d.drop_last()) * 10 + (d.last() - 48) as nat
    }
}

/// Position of the first non-digit byte at or after `i`.
pub open spec fn digits_end(s: Seq<u8>, i: int) -> int
    decreases s.len() - i,
{
    if i < 0 || i >= s.len() || !is_digit(s[i]) {
        i
    } else {
        digits_end(s, i + 1)
    }
}

/// Position of the first non-whitespace byte at or after `i`.
pub open spec fn spaces_end(s: Seq<u8>, i: int) -> int
    decreases s.len() - i,
{
    if i < 0 || i >= s.len() || !is_space(s[i]) {
        i
    } else {
        spaces_end(s, i + 1)
    }
}

/// Position just after the last non-whitespace byte before `j`, and no
/// lower than `lo`.
pub open spec fn spaces_back(s: Seq<u8>, lo: int, j: int) -> int
    decreases j - lo,
{
    if j <= lo || j > s.len() || !is_space(s[j - 1]) {
        j
    } else {
        spaces_back(s, lo, j - 1)
    }
}

/// `s` without its leading and trailing whitespace.
pub open spec fn trimmed(s: Seq<u8>) -> Seq<u8> {
    let a = spaces_end(s, 0);
    s.subrange(a, spaces_back(s, a, s.len() as int))
}

/// The first position at or after `from` where `p` occurs.
pub open spec fn find_spec(s: Seq<u8>, from: int, p: Seq<u8>) -> Option<int>
    decreases s.len() + 1 - from,
{
    if from < 0 || from > s.len() {
        None
    } else if has_prefix_at(s, from, p) {
        Some(from)
    } else {
        find_spec(s, from + 1, p)
    }
}

/// The last position below `j` where `p` occurs.
pub open spec fn rfind_before(s: Seq<u8>, p: Seq<u8>, j: int) -> Option<int>
    decreases j,
{
    if j <= 0 {
        None
    } else if has_prefix_at(s, j - 1, p) {
        Some(j - 1)
    } else {
        rfind_before(s, p, j - 1)
    }
}

/// The unsigned decimal number that starts at `i` and the position after
/// it; `None` where no digit stands there or the value exceeds `usize`.
pub open spec fn decimal_at(s: Seq<u8>, i: int) -> Option<(nat, int)> {
    let e = digits_end(s, i);
    if e == i || dec_value(s.subrange(i, e)) > usize::MAX {
        None
    } else {
        Some((dec_value(s.subrange(i, e)), e))
    }
}

pub open spec fn opt_usize_as_int(o: Option<usize>) -> Option<int> {
    match o {
        Some(j) => Some(j as int),
        None => None,
    }
}

pub fn is_digit_byte(b: u8) -> (r: bool)
    ensures
        r == is_digit(b),
{
    48 <= b && b <= 57
}

pub fn is_space_byte(b: u8) -> (r: bool)
    ensures
        r == is_space(b),
{
    b == 32 || (9 <= b && b <= 13)
}

/// Relies on `String::from_utf8_lossy`: valid UTF-8 is decoded unchanged.
#[verifier::external_body]
pub(crate) fn text_from_bytes(b: &[u8]) -> (r: String)
    ensures
        valid_utf8(b@) ==> r@ == decode_utf8(b@),
{
    String::from_utf8_lossy(b).into_owned()
}

/// A copy of `s`.
pub fn copy_bytes(s: &[u8]) -> (r: Vec<u8>)
    ensures
        r@ == s@,
{
    let mut r: Vec<u8> = Vec::new();
    let mut i: usize = 0;
    while i < s.len()
        invariant
            i <= s@.len(),
            r@ == s@.subrange(0, i as int),
        decreases s@.len() - i,
    {
        r.push(s[i]);
        i += 1;
        assert(r@ =~= s@.subrange(0, i as int));
    }
    assert(r@ =~= s@);
    r
}

pub fn bytes_eq(a: &[u8], b: &[u8]) -> (r: bool)
    ensures
        r == (a@ == b@),
{
    if a.len() != b.len() {
        return false;
    }
    let r = starts_with_at(a, 0, b);
    assert(a@ =~= a@.subrange(0, b@.len() as int));
    r
}

/// Does `p` occur in `s` at position `i`?
pub fn starts_with_at(s: &[u8], i: usize, p: &[u8]) -> (r: bool)
    ensures
        r == has_prefix_at(s@, i as int, p@),
{
    if i > s.len() || p.len() > s.len() - i {
        return false;
    }
    let mut k: usize = 0;
    while k < p.len()
        invariant
            0 <= k <= p@.len(),
            i + p@.len() <= s@.len(),
            s@.len() <= usize::MAX,
            forall|j: int| 0 <= j < k ==> s@[i + j] == p@[j],
        decreases p@.len() - k,
    {
        if s[i + k] != p[k] {
            assert(s@.subrange(i as int, i + p@.len())[k as int] != p@[k as int]);
            return false;
        }
        k += 1;
    }
    assert(s@.subrange(i as int, i + p@.len()) =~= p@);
    true
}

pub fn starts_with(s: &[u8], p: &[u8]) -> (r: bool)
    ensures
        r == has_prefix(s@, p@),
{
    starts_with_at(s, 0, p)
}

pub fn ends_with(s: &[u8], p: &[u8]) -> (r: bool)
    ensures
        r == has_suffix(s@, p@),
{
    if p.len() > s.len() {
        return false;
    }
    let r = starts_with_at(s, s.len() - p.len(), p);
    proof {
        if r {
            assert(s@.subrange(s@.len() - p@.len(), s@.len() as int) == p@);
        } else {
            assert(!has_prefix_at(s@, s@.len() - p@.len(), p@));
        }
    }
    r
}

/// The first position at or after `from` where `p` occurs.
pub fn find_from(s: &[u8], from: usize, p: &[u8]) -> (r: Option<usize>)
    ensures
        match r {
            Some(j) => from <= j && has_prefix_at(s@, j as int, p@) && forall|k: int|
                from <= k < j ==> !#[trigger] has_prefix_at(s@, k, p@),
            None => !occurs_from(s@, from as int, p@),
        },
        opt_usize_as_int(r) == find_spec(s@, from as int, p@),
{
    if from > s.len() {
        assert forall|j: int| from <= j implies !#[trigger] has_prefix_at(s@, j, p@) by {}
        return None;
    }
    let mut j: usize = from;
    while j < s.len()
        invariant
            from <= j <= s@.len(),
            forall|k: int| from <= k < j ==> !#[trigger] has_prefix_at(s@, k, p@),
            find_spec(s@, j as int, p@) == find_spec(s@, from as int, p@),
        decreases s@.len() - j,
    {
        if starts_with_at(s, j, p) {
            return Some(j);
        }
        j += 1;
    }
    if starts_with_at(s, j, p) {
        return Some(j);
    }
    assert(find_spec(s@, j + 1, p@) == None::<int>);
    assert forall|k: int| from <= k implies !#[trigger] has_prefix_at(s@, k, p@) by {
        if k > j {
            assert(k > s@.len());
        }
    }
    None
}

/// The last position below `j` where `p` occurs.
pub fn rfind_below(s: &[u8], p: &[u8], j: usize) -> (r: Option<usize>)
    ensures
        opt_usize_as_int(r) == rfind_before(s@, p@, j as int),
        r matches Some(k) ==> k < j && has_prefix_at(s@, k as int, p@),
{
    let mut k = j;
    while k > 0
        invariant
            k <= j,
            rfind_before(s@, p@, k as int) == rfind_before(s@, p@, j as int),
        decreases k,
    {
        if starts_with_at(s, k - 1, p) {
            return Some(k - 1);
        }
        k -= 1;
    }
    None
}

pub fn contains(s: &[u8], p: &[u8]) -> (r: bool)
    ensures
        r == occurs_from(s@, 0, p@),
{
    find_from(s, 0, p).is_some()
}

/// The first position at or after `i` that holds no whitespace byte.
pub fn skip_spaces(s: &[u8], i: usize) -> (r: usize)
    requires
        i <= s@.len(),
    ensures
        i <= r <= s@.len(),
        r == s@.len() || !is_space(s@[r as int]),
        forall|k: int| i <= k < r ==> is_space(#[trigger] s@[k]),
        r == spaces_end(s@, i as int),
{
    let mut j = i;
    while j < s.len() && is_space_byte(s[j])
        invariant
            i <= j <= s@.len(),
            spaces_end(s@, j as int) == spaces_end(s@, i as int),
            forall|k: int| i <= k < j ==> is_space(#[trigger] s@[k]),
        decreases s@.len() - j,
    {
        j += 1;
    }
    j
}

/// The first position at or after `i` that holds no decimal digit.
pub fn skip_digits(s: &[u8], i: usize) -> (r: usize)
    requires
        i <= s@.len(),
    ensures
        i <= r <= s@.len(),
        r == s@.len() || !is_digit(s@[r as int]),
        all_digits(s@.subrange(i as int, r as int)),
        r == digits_end(s@, i as int),
{
    let mut j = i;
    while j < s.len() && is_digit_byte(s[j])
        invariant
            i <= j <= s@.len(),
            digits_end(s@, j as int) == digits_end(s@, i as int),
            all_digits(s@.subrange(i as int, j as int)),
        decreases s@.len() - j,
    {
        assert(s@.subrange(i as int, j + 1).drop_last() =~= s@.subrange(i as int, j as int));
        j += 1;
    }
    j
}

/// The position after the last non-whitespace byte of `s[lo..j]`.
pub fn skip_spaces_back(s: &[u8], lo: usize, j: usize) -> (r: usize)
    requires
        lo <= j <= s@.len(),
    ensures
        lo <= r <= j,
        r == spaces_back(s@, lo as int, j as int),
{
    let mut k = j;
    while k > lo && is_space_byte(s[k - 1])
        invariant
            lo <= k <= j <= s@.len(),
            spaces_back(s@, lo as int, k as int) == spaces_back(s@, lo as int, j as int),
        decreases k,
    {
        k -= 1;
    }
    k
}

/// The bounds of `s` without its leading and trailing whitespace.
pub fn trim_bounds(s: &[u8]) -> (r: (usize, usize))
    ensures
        r.0 <= r.1 <= s@.len(),
        s@.subrange(r.0 as int, r.1 as int) == trimmed(s@),
{
    let a = skip_spaces(s, 0);
    let b = skip_spaces_back(s, a, s.len());
    (a, b)
}

proof fn lemma_dec_value_mono(s: Seq<u8>, i: int, j: int, e: int)
    requires
        0 <= i <= j <= e <= s.len(),
        all_digits(s.subrange(i, e)),
    ensures
        dec_value(s.subrange(i, j)) <= dec_value(s.subrange(i, e)),
    decreases e - j,
{
    if e > j {
        assert(s.subrange(i, e).drop_last() =~= s.subrange(i, e - 1));
        assert(all_digits(s.subrange(i, e - 1))) by {
            assert forall|k: int| 0 <= k < e - 1 - i implies is_digit(
                #[trigger] s.subrange(i, e - 1)[k],
            ) by {
                assert(s.subrange(i, e - 1)[k] == s.subrange(i, e)[k]);
            }
        }
        lemma_dec_value_mono(s, i, j, e - 1);
    }
}

/// Reads the unsigned decimal number that starts at `i`: its value and the
/// position after its last digit. `None` where no digit stands at `i` or the
/// value does not fit a `usize`.
pub fn parse_decimal(s: &[u8], i: usize) -> (r: Option<(usize, usize)>)
    requires
        i <= s@.len(),
    ensures
        decimal_at(s@, i as int) == match r {
            Some((v, j)) => Some((v as nat, j as int)),
            None => None,
        },
        r matches Some((_, j)) ==> i < j <= s@.len(),
{
    let end = skip_digits(s, i);
    if end == i {
        return None;
    }
    let mut v: usize = 0;
    let mut k = i;
    while k < end
        invariant
            i <= k <= end <= s@.len(),
            end == digits_end(s@, i as int),
            all_digits(s@.subrange(i as int, end as int)),
            v == dec_value(s@.subrange(i as int, k as int)),
        decreases end - k,
    {
        assert(s@.subrange(i as int, end as int)[k - i] == s@[k as int]);
        let d = (s[k] - 48) as usize;
        assert(s@.subrange(i as int, k + 1).drop_last() =~= s@.subrange(i as int, k as int));
        if v > (usize::MAX - d) / 10 {
            proof {
                assert(dec_value(s@.subrange(i as int, k + 1)) > usize::MAX) by (nonlinear_arith)
                    requires
                        v > (usize::MAX - d) / 10,
                        dec_value(s@.subrange(i as int, k + 1)) == v * 10 + d,
                        d <= 9,
                ;
                lemma_dec_value_mono(s@, i as int, k + 1, end as int);
            }
            return None;
        }
        assert(v * 10 + d <= usize::MAX) by (nonlinear_arith)
            requires
                v <= (usize::MAX - d) / 10,
                d <= 9,
        ;
        v = v * 10 + d;
        k += 1;
    }
    Some((v, end))
}

} // verus!
