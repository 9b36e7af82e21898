//! Wikilink syntax: `[[target]]` or `[[target|alias]]`, and the lookup key of
//! a target.
use vstd::prelude::*;
use crate::text::{
    ascii_lower, is_white, trim_end, trim_start,
    chars_of, ends_with, lower_char, lower_chars, lower_seq, slice_chars, string_of, trim, trim_chars,
    chars_eq,
};

verus! {

/// First index `j >= i` with `s[j] == c`, or `s.len()` when there is none.
pub open spec fn first_index_of(s: Seq<char>, c: char, i: int) -> int
    decreases s.len() - i,
{
    if i < 0 || i >= s.len() {
        s.len() as int
    } else if s[i] == c {
        i
    } else {
        first_index_of(s, c, i + 1)
    }
}

/// First index `j >= i` where `x` is followed by `y`, or `s.len()` when there is none.
pub open spec fn first_pair(s: Seq<char>, i: int, x: char, y: char) -> int
    decreases s.len() - i,
{
    if i < 0 || i + 1 >= s.len() {
        s.len() as int
    } else if s[i] == x && s[i + 1] == y {
        i
    } else {
        first_pair(s, i + 1, x, y)
    }
}

/// The part of `s` before its first `|` (all of `s` if it has none).
pub open spec fn before_bar(s: Seq<char>) -> Seq<char> {
    s.subrange(0, first_index_of(s, '|', 0))
}

/// `t` ends with `.md` in any letter case.
pub open spec fn has_md_suffix(t: Seq<char>) -> bool {
    ends_with(lower_seq(t), seq!['.', 'm', 'd'])
}

/// `t` without a trailing `.md` of any letter case.
pub open spec fn strip_md(t: Seq<char>) -> Seq<char> {
    if has_md_suffix(t) {
        t.subrange(0, t.len() - 3)
    } else {
        t
    }
}

/// The lookup key of a link target: alias dropped, whitespace trimmed, a
/// trailing `.md` removed, ASCII letters lower-cased. Empty means no target.
pub open spec fn normalize(s: Seq<char>) -> Seq<char> {
    lower_seq(strip_md(trim(before_bar(s))))
}

/// The raw texts between each `[[` and the next `]]`, scanning from index `i`;
/// the scan ends at the first `[[` that is never closed.
pub open spec fn occurrences_from(s: Seq<char>, i: int) -> Seq<Seq<char>>
    decreases s.len() - i,
{
    if i < 0 || i > s.len() {
        seq![]
    } else {
        let a = first_pair(s, i, '[', '[');
        if !(i <= a && a + 1 < s.len()) {
            seq![]
        } else {
            let b = first_pair(s, a + 2, ']', ']');
            if !(a + 2 <= b && b + 1 < s.len()) {
                seq![]
            } else {
                seq![s.subrange(a + 2, b)] + occurrences_from(s, b + 2)
            }
        }
    }
}

/// The non-empty keys of `ks`, each once, in order of first occurrence.
pub open spec fn distinct_keys(ks: Seq<Seq<char>>) -> Seq<Seq<char>>
    decreases ks.len(),
{
    if ks.len() == 0 {
        seq![]
    } else {
        let prev = distinct_keys(ks.drop_last());
        let k = ks.last();
        if k.len() == 0 || prev.contains(k) {
            prev
        } else {
            prev.push(k)
        }
    }
}

/// The keys of all wikilinks of a text, each once, in order of first occurrence.
pub open spec fn extract(s: Seq<char>) -> Seq<Seq<char>> {
    distinct_keys(occurrences_from(s, 0).map_values(|o: Seq<char>| normalize(o)))
}

/// The views of a list of character vectors.
pub open spec fn views(v: Seq<Vec<char>>) -> Seq<Seq<char>> {
    v.map_values(|x: Vec<char>| x@)
}

/// The views of a list of strings.
pub open spec fn string_views(v: Seq<String>) -> Seq<Seq<char>> {
    v.map_values(|x: String| x@)
}

fn find_char(v: &Vec<char>, c: char) -> (r: usize)
    ensures
        r == first_index_of(v@, c, 0),
        r <= v@.len(),
{
    let mut j: usize = 0;
    while j < v.len() && v[j] != c
        invariant
            j <= v@.len(),
            first_index_of(v@, c, 0) == first_index_of(v@, c, j as int),
        decreases v.len() - j,
    {
        j += 1;
    }
    j
}

fn find_pair(v: &Vec<char>, from: usize, x: char, y: char) -> (r: usize)
    requires
        from <= v@.len(),
    ensures
        r == first_pair(v@, from as int, x, y),
        r < v@.len() ==> from <= r && r + 1 < v@.len(),
        r >= v@.len() ==> r == v@.len(),
{
    let mut j: usize = from;
    while j < v.len() && j + 1 < v.len() && !(v[j] == x && v[j + 1] == y)
        invariant
            from <= j <= v@.len(),
            first_pair(v@, from as int, x, y) == first_pair(v@, j as int, x, y),
        decreases v.len() - j,
    {
        j += 1;
    }
    if j < v.len() && j + 1 < v.len() {
        j
    } else {
        v.len()
    }
}

/// The lookup key of the link target `v`.
pub(crate) fn normalize_chars(v: &Vec<char>) -> (r: Vec<char>)
    ensures
        r@ == normalize(v@),
{
    let k = find_char(v, '|');
    let b = slice_chars(v, 0, k);
    let t = trim_chars(&b);
    let n = t.len();
    let u = if n >= 3 && lower_char(t[n - 3]) == '.' && lower_char(t[n - 2]) == 'm' && lower_char(
        t[n - 1],
    ) == 'd' {
        assert(lower_seq(t@).subrange(n - 3, n as int) =~= seq!['.', 'm', 'd']);
        slice_chars(&t, 0, n - 3)
    } else {
        proof {
            if n >= 3 && has_md_suffix(t@) {
                let l = lower_seq(t@).subrange(n - 3, n as int);
                assert(l[0] == '.' && l[1] == 'm' && l[2] == 'd');
            }
        }
        t
    };
    lower_chars(&u)
}

pub(crate) fn contains_key(links: &Vec<Vec<char>>, k: &Vec<char>) -> (r: bool)
    ensures
        r == views(links@).contains(k@),
{
    let mut i: usize = 0;
    while i < links.len()
        invariant
            i <= links@.len(),
            forall|j: int| 0 <= j < i ==> links@[j]@ != k@,
        decreases links.len() - i,
    {
        if chars_eq(&links[i], k) {
            assert(views(links@)[i as int] == k@);
            return true;
        }
        i += 1;
    }
    false
}

/// The keys of all wikilinks of `v`, each once, in order of first occurrence.
pub(crate) fn extract_chars(v: &Vec<char>) -> (r: Vec<Vec<char>>)
    ensures
        views(r@) == extract(v@),
        r@.len() <= v@.len(),
{
    let n = v.len();
    let mut links: Vec<Vec<char>> = Vec::new();
    let mut idx: usize = 0;
    let ghost mut done: Seq<Seq<char>> = seq![];
    while idx < n
        invariant
            idx <= n == v@.len(),
            links@.len() <= idx,
            occurrences_from(v@, 0) == done + occurrences_from(v@, idx as int),
            views(links@) == distinct_keys(done.map_values(|o: Seq<char>| normalize(o))),
        decreases n - idx,
    {
        let a = find_pair(v, idx, '[', '[');
        if a >= n {
            assert(occurrences_from(v@, n as int) == Seq::<Seq<char>>::empty());
            assert(occurrences_from(v@, idx as int) == Seq::<Seq<char>>::empty());
            idx = n;
        } else {
            let b = find_pair(v, a + 2, ']', ']');
            if b >= n {
                assert(occurrences_from(v@, n as int) == Seq::<Seq<char>>::empty());
                assert(occurrences_from(v@, idx as int) == Seq::<Seq<char>>::empty());
                idx = n;
            } else {
                let raw = slice_chars(v, a + 2, b);
                let key = normalize_chars(&raw);
                let ghost old_done = done;
                proof {
                    assert(occurrences_from(v@, idx as int) == seq![raw@] + occurrences_from(
                        v@,
                        b + 2,
                    ));
                    done = done.push(raw@);
                    assert(old_done + (seq![raw@] + occurrences_from(v@, b + 2)) =~= done
                        + occurrences_from(v@, b + 2));
                    let f = |o: Seq<char>| normalize(o);
                    assert(done.map_values(f) =~= old_done.map_values(f).push(key@));
                    assert(done.map_values(f).drop_last() =~= old_done.map_values(f));
                }
                if key.len() > 0 && !contains_key(&links, &key) {
                    links.push(key);
                    assert(views(links@) =~= distinct_keys(
                        old_done.map_values(|o: Seq<char>| normalize(o)),
                    ).push(key@));
                }
                idx = b + 2;
            }
        }
    }
    assert(occurrences_from(v@, n as int) == Seq::<Seq<char>>::empty());
    assert(done + Seq::<Seq<char>>::empty() =~= done);
    links
}

/// The lookup key of a link target: the text before the first `|`, trimmed of
/// whitespace, without a trailing `.md` of any case, ASCII letters lower-cased.
/// An empty result marks an invalid target.
pub fn normalize_wikilink_target(target: &str) -> (r: String)
    ensures
        r@ == normalize(target@),
{
    let v = chars_of(target);
    let k = normalize_chars(&v);
    string_of(&k)
}

/// The keys of all wikilinks of `text`, each once, in order of first
/// occurrence; scanning stops at a `[[` that is never closed.
pub fn extract_wikilinks(text: &str) -> (r: Vec<String>)
    ensures
        string_views(r@) == extract(text@),
{
    let v = chars_of(text);
    let keys = extract_chars(&v);
    let mut r: Vec<String> = Vec::new();
    let mut i: usize = 0;
    while i < keys.len()
        invariant
            i <= keys@.len(),
            string_views(r@) == views(keys@).subrange(0, i as int),
        decreases keys.len() - i,
    {
        let s = string_of(&keys[i]);
        assert(s@ == views(keys@)[i as int]);
        let ghost prev = r@;
        r.push(s);
        assert(string_views(r@) =~= string_views(prev).push(s@));
        assert(views(keys@).subrange(0, i + 1) =~= views(keys@).subrange(0, i as int).push(s@));
        i += 1;
    }
    assert(views(keys@).subrange(0, keys@.len() as int) =~= views(keys@));
    r
}

proof fn lemma_first_index_none(s: Seq<char>, c: char, i: int)
    requires
        0 <= i <= s.len(),
        forall|j: int| i <= j < s.len() ==> s[j] != c,
    ensures
        first_index_of(s, c, i) == s.len(),
    decreases s.len() - i,
{
    if i < s.len() {
        lemma_first_index_none(s, c, i + 1);
    }
}

proof fn lemma_first_index_before(s: Seq<char>, c: char, i: int)
    requires
        0 <= i <= s.len(),
    ensures
        i <= first_index_of(s, c, i) <= s.len(),
        forall|j: int| i <= j < first_index_of(s, c, i) ==> s[j] != c,
    decreases s.len() - i,
{
    if i < s.len() && s[i] != c {
        lemma_first_index_before(s, c, i + 1);
    }
}

proof fn lemma_trim_start_suffix(s: Seq<char>)
    ensures
        trim_start(s).len() <= s.len(),
        trim_start(s) == s.subrange(s.len() - trim_start(s).len(), s.len() as int),
        trim_start(s).len() > 0 ==> !is_white(trim_start(s)[0]),
    decreases s.len(),
{
    if s.len() > 0 && is_white(s[0]) {
        lemma_trim_start_suffix(s.drop_first());
        assert(s.drop_first().subrange(
            s.drop_first().len() - trim_start(s).len(),
            s.drop_first().len() as int,
        ) =~= s.subrange(s.len() - trim_start(s).len(), s.len() as int));
    } else {
        assert(s.subrange(0, s.len() as int) =~= s);
    }
}

proof fn lemma_trim_end_prefix(s: Seq<char>)
    ensures
        trim_end(s).len() <= s.len(),
        trim_end(s) == s.subrange(0, trim_end(s).len() as int),
        trim_end(s).len() > 0 ==> !is_white(trim_end(s).last()),
    decreases s.len(),
{
    if s.len() > 0 && is_white(s.last()) {
        lemma_trim_end_prefix(s.drop_last());
        assert(s.drop_last().subrange(0, trim_end(s).len() as int) =~= s.subrange(
            0,
            trim_end(s).len() as int,
        ));
    } else {
        assert(s.subrange(0, s.len() as int) =~= s);
    }
}

proof fn lemma_lower_char(c: char)
    ensures
        ascii_lower(ascii_lower(c)) == ascii_lower(c),
        is_white(ascii_lower(c)) == is_white(c),
        (ascii_lower(c) == '|') == (c == '|'),
{
}

/// Normalizing a key again leaves it as it is, unless the first pass left a
/// trailing `.md` or trailing whitespace behind (as `"a .md"` does).
pub proof fn lemma_normalize_idempotent(x: Seq<char>)
    requires
        !has_md_suffix(normalize(x)),
        normalize(x).len() == 0 || !is_white(normalize(x).last()),
    ensures
        normalize(normalize(x)) == normalize(x),
{
    let b = before_bar(x);
    let w = trim_start(b);
    let t = trim(b);
    let u = strip_md(t);
    let y = normalize(x);
    lemma_first_index_before(x, '|', 0);
    lemma_trim_start_suffix(b);
    lemma_trim_end_prefix(w);
    assert forall|i: int| 0 <= i < t.len() implies t[i] != '|' && (i == 0 ==> !is_white(t[i]))
        by {
        assert(t[i] == w[i]);
        assert(w[i] == b[b.len() - w.len() + i]);
    }
    assert forall|i: int| 0 <= i < y.len() implies y[i] != '|' && (i == 0 ==> !is_white(y[i]))
        && ascii_lower(y[i]) == y[i] by {
        assert(y[i] == ascii_lower(u[i]));
        assert(u[i] == t[i]);
        lemma_lower_char(u[i]);
    }
    lemma_first_index_none(y, '|', 0);
    assert(before_bar(y) =~= y);
    if y.len() > 0 {
        assert(trim_start(y) == y);
        assert(trim_end(y) == y);
    } else {
        assert(trim(y) =~= y);
    }
    assert(lower_seq(y) =~= y);
}

} // verus!
