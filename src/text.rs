//! Character-level helpers shared by the parser and the path logic.
use vstd::prelude::*;

verus! {

/// `c` is an ASCII uppercase letter.
pub open spec fn is_ascii_upper(c: char) -> bool {
    65 <= c as u32 && c as u32 <= 90
}

/// ASCII case folding of one character; non-ASCII letters are left alone.
pub open spec fn ascii_lower(c: char) -> char {
    if is_ascii_upper(c) {
        ((c as u32) + 32) as char
    } else {
        c
    }
}

/// ASCII case folding of a whole sequence.
pub open spec fn lower_seq(s: Seq<char>) -> Seq<char> {
    s.map_values(|c: char| ascii_lower(c))
}

/// The Unicode `White_Space` property.
pub open spec fn is_white(c: char) -> bool {
    let u = c as u32;
    (9 <= u && u <= 13) || u == 32 || u == 0x85 || u == 0xA0 || u == 0x1680 || (0x2000 <= u
        && u <= 0x200A) || u == 0x2028 || u == 0x2029 || u == 0x202F || u == 0x205F || u
        == 0x3000
}

/// `s` without its leading whitespace.
pub open spec fn trim_start(s: Seq<char>) -> Seq<char>
    decreases s.len(),
{
    if s.len() > 0 && is_white(s[0]) {
        trim_start(s.drop_first())
    } else {
        s
    }
}

/// `s` without its trailing whitespace.
pub open spec fn trim_end(s: Seq<char>) -> Seq<char>
    decreases s.len(),
{
    if s.len() > 0 && is_white(s.last()) {
        trim_end(s.drop_last())
    } else {
        s
    }
}

/// `s` without surrounding whitespace.
pub open spec fn trim(s: Seq<char>) -> Seq<char> {
    trim_end(trim_start(s))
}

/// `s` ends with the characters of `suffix`.
pub open spec fn ends_with(s: Seq<char>, suffix: Seq<char>) -> bool {
    suffix.len() <= s.len() && s.subrange(s.len() - suffix.len(), s.len() as int) == suffix
}

/// Full Unicode lower-casing of a string.
pub uninterp spec fn lower_of(s: Seq<char>) -> Seq<char>;

/// Relies on `str::to_lowercase`: Unicode lower-casing, which depends on the
/// characters alone.
#[verifier::external_body]
pub(crate) fn unicode_lower(s: &str) -> (r: Vec<char>)
    ensures
        r@ == lower_of(s@),
{
    s.to_lowercase().chars().collect()
}

/// Relies on `str::chars`: it yields the characters of the string in order.
#[verifier::external_body]
pub(crate) fn chars_of(s: &str) -> (r: Vec<char>)
    ensures
        r@ == s@,
{
    s.chars().collect()
}

/// Relies on collecting characters into a `String`: they are concatenated in order.
#[verifier::external_body]
pub(crate) fn string_of(v: &Vec<char>) -> (r: String)
    ensures
        r@ == v@,
{
    v.iter().collect()
}

/// Relies on `char::to_ascii_lowercase`: `A`..=`Z` become `a`..=`z`, all else is kept.
#[verifier::external_body]
pub(crate) fn lower_char(c: char) -> (r: char)
    ensures
        r == ascii_lower(c),
{
    c.to_ascii_lowercase()
}

/// Relies on `char::is_whitespace`: the Unicode `White_Space` property.
#[verifier::external_body]
pub(crate) fn white_char(c: char) -> (r: bool)
    ensures
        r == is_white(c),
{
    c.is_whitespace()
}

/// The characters `v[lo..hi]`.
pub(crate) fn slice_chars(v: &Vec<char>, lo: usize, hi: usize) -> (r: Vec<char>)
    requires
        lo <= hi <= v@.len(),
    ensures
        r@ == v@.subrange(lo as int, hi as int),
{
    let mut r: Vec<char> = Vec::new();
    let mut i: usize = lo;
    while i < hi
        invariant
            lo <= i <= hi <= v@.len(),
            r@ == v@.subrange(lo as int, i as int),
        decreases hi - i,
    {
        r.push(v[i]);
        assert(r@ =~= v@.subrange(lo as int, i + 1));
        i += 1;
    }
    r
}

/// ASCII case folding of `v`.
pub(crate) fn lower_chars(v: &Vec<char>) -> (r: Vec<char>)
    ensures
        r@ == lower_seq(v@),
{
    let mut r: Vec<char> = Vec::new();
    let mut i: usize = 0;
    while i < v.len()
        invariant
            i <= v@.len(),
            r@ == lower_seq(v@.subrange(0, i as int)),
        decreases v.len() - i,
    {
        r.push(lower_char(v[i]));
        assert(r@ =~= lower_seq(v@.subrange(0, i + 1)));
        i += 1;
    }
    assert(v@.subrange(0, v@.len() as int) =~= v@);
    r
}

/// Whether two character sequences are equal.
pub(crate) fn chars_eq(a: &Vec<char>, b: &Vec<char>) -> (r: bool)
    ensures
        r == (a@ == b@),
{
    if a.len() != b.len() {
        return false;
    }
    let mut i: usize = 0;
    while i < a.len()
        invariant
            i <= a@.len() == b@.len(),
            forall|j: int| 0 <= j < i ==> a@[j] == b@[j],
        decreases a.len() - i,
    {
        if a[i] != b[i] {
            return false;
        }
        i += 1;
    }
    assert(a@ =~= b@);
    true
}

/// `v` with surrounding whitespace removed.
pub(crate) fn trim_chars(v: &Vec<char>) -> (r: Vec<char>)
    ensures
        r@ == trim(v@),
{
    let n = v.len();
    let mut lo: usize = 0;
    assert(v@.subrange(0, n as int) =~= v@);
    while lo < n && white_char(v[lo])
        invariant
            lo <= n == v@.len(),
            trim_start(v@) == trim_start(v@.subrange(lo as int, n as int)),
        decreases n - lo,
    {
        assert(v@.subrange(lo + 1, n as int) =~= v@.subrange(lo as int, n as int).drop_first());
        lo += 1;
    }
    let mut hi: usize = n;
    while hi > lo && white_char(v[hi - 1])
        invariant
            lo <= hi <= n == v@.len(),
            trim_start(v@) == trim_start(v@.subrange(lo as int, n as int)),
            lo < n ==> !is_white(v@[lo as int]),
            trim_end(v@.subrange(lo as int, n as int)) == trim_end(
                v@.subrange(lo as int, hi as int),
            ),
        decreases hi - lo,
    {
        assert(v@.subrange(lo as int, hi - 1) =~= v@.subrange(lo as int, hi as int).drop_last());
        hi -= 1;
    }
    slice_chars(v, lo, hi)
}

} // verus!
