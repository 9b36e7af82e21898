//! Relative paths inside a vault: segments, visibility, file-name parts, and
//! the checks that keep a path from leaving the vault root.
use vstd::prelude::*;
use crate::text::{chars_eq, chars_of, lower_chars, lower_seq, slice_chars, string_of};
use crate::wikilink::{first_index_of, views};

verus! {

/// Why a path was refused.
#[derive(Debug, Clone, Copy, PartialEq, Eq, Structural)]
pub enum PathError {
    /// The path is absolute, has a `..` segment, or lies outside the vault.
    UnsafePath,
    /// Nothing is left of the path once `.` and empty segments are dropped.
    EmptyPath,
    /// The path names something other than a file.
    NotAFile,
    /// The file is not a markdown note.
    NotMarkdown,
}

/// The `/`-separated segments of `s` from index `i` on, empty ones included.
pub open spec fn split_from(s: Seq<char>, i: int) -> Seq<Seq<char>>
    decreases s.len() - i,
{
    if i < 0 || i > s.len() {
        seq![]
    } else {
        let j = first_index_of(s, '/', i);
        if i <= j && j < s.len() {
            seq![s.subrange(i, j)] + split_from(s, j + 1)
        } else {
            seq![s.subrange(i, s.len() as int)]
        }
    }
}

/// The `/`-separated segments of `s`, empty ones included.
pub open spec fn segments(s: Seq<char>) -> Seq<Seq<char>> {
    split_from(s, 0)
}

/// A segment that marks a hidden or ignored item: a dot entry or `node_modules`,
/// in any ASCII letter case.
pub open spec fn hidden_segment(seg: Seq<char>) -> bool {
    let l = lower_seq(seg);
    (l.len() > 0 && l[0] == '.') || l == seq!['n', 'o', 'd', 'e', '_', 'm', 'o', 'd', 'u', 'l', 'e', 's']
}

/// Some segment of the path is hidden.
pub open spec fn hidden_path(s: Seq<char>) -> bool {
    exists|k: int| 0 <= k < segments(s).len() && hidden_segment(#[trigger] segments(s)[k])
}

/// The path starts at the file-system root.
pub open spec fn rooted(s: Seq<char>) -> bool {
    s.len() > 0 && s[0] == '/'
}

/// The parent-directory segment `..`.
pub open spec fn parent_segment() -> Seq<char> {
    seq!['.', '.']
}

/// The segments that name something: neither empty nor `.`.
pub open spec fn kept(parts: Seq<Seq<char>>) -> Seq<Seq<char>>
    decreases parts.len(),
{
    if parts.len() == 0 {
        seq![]
    } else {
        let p = parts.last();
        if p.len() == 0 || p == seq!['.'] {
            kept(parts.drop_last())
        } else {
            kept(parts.drop_last()).push(p)
        }
    }
}

/// The parts joined with `/`.
pub open spec fn join(parts: Seq<Seq<char>>) -> Seq<char>
    decreases parts.len(),
{
    if parts.len() == 0 {
        seq![]
    } else if parts.len() == 1 {
        parts[0]
    } else {
        join(parts.drop_last()) + seq!['/'] + parts.last()
    }
}

/// Index of the last `c` of `s` before index `i`, or `-1`.
pub open spec fn last_index_before(s: Seq<char>, c: char, i: int) -> int
    decreases i,
{
    if i <= 0 || i > s.len() {
        -1
    } else if s[i - 1] == c {
        i - 1
    } else {
        last_index_before(s, c, i - 1)
    }
}

/// The extension of a file name: the text after its last `.`, unless that
/// dot is the name's first character.
pub open spec fn extension(name: Seq<char>) -> Option<Seq<char>> {
    let d = last_index_before(name, '.', name.len() as int);
    if d <= 0 {
        None
    } else {
        Some(name.subrange(d + 1, name.len() as int))
    }
}

/// A file name without its extension.
pub open spec fn stem(name: Seq<char>) -> Seq<char> {
    let d = last_index_before(name, '.', name.len() as int);
    if d <= 0 {
        name
    } else {
        name.subrange(0, d)
    }
}

/// The file name has the extension `md` or `markdown`, in any ASCII letter case.
pub open spec fn markdown_name(name: Seq<char>) -> bool {
    match extension(name) {
        Some(e) => lower_seq(e) == "md"@ || lower_seq(e) == "markdown"@,
        None => false,
    }
}

/// The media type served for a lower-cased file extension.
pub open spec fn mime_of(e: Seq<char>) -> Seq<char> {
    if e == "png"@ {
        "image/png"@
    } else if e == "jpg"@ || e == "jpeg"@ {
        "image/jpeg"@
    } else if e == "gif"@ {
        "image/gif"@
    } else if e == "webp"@ {
        "image/webp"@
    } else if e == "svg"@ {
        "image/svg+xml"@
    } else if e == "avif"@ {
        "image/avif"@
    } else if e == "bmp"@ {
        "image/bmp"@
    } else if e == "tif"@ || e == "tiff"@ {
        "image/tiff"@
    } else {
        "application/octet-stream"@
    }
}

/// The media type of a file name, by its extension.
pub open spec fn mime_of_name(name: Seq<char>) -> Seq<char> {
    match extension(name) {
        Some(e) => mime_of(lower_seq(e)),
        None => mime_of(seq![]),
    }
}

/// The part of a path after its last `/`.
pub open spec fn last_segment(s: Seq<char>) -> Seq<char> {
    s.subrange(last_index_before(s, '/', s.len() as int) + 1, s.len() as int)
}

fn find_char_from(v: &Vec<char>, c: char, from: usize) -> (r: usize)
    requires
        from <= v@.len(),
    ensures
        r == first_index_of(v@, c, from as int),
        from <= r <= v@.len(),
        forall|m: int| from <= m < r ==> v@[m] != c,
        r < v@.len() ==> v@[r as int] == c,
{
    let mut j: usize = from;
    while j < v.len() && v[j] != c
        invariant
            from <= j <= v@.len(),
            first_index_of(v@, c, from as int) == first_index_of(v@, c, j as int),
            forall|m: int| from <= m < j ==> v@[m] != c,
        decreases v.len() - j,
    {
        j += 1;
    }
    j
}

/// The `/`-separated segments of `v`, empty ones included.
pub(crate) fn split_segments(v: &Vec<char>) -> (r: Vec<Vec<char>>)
    ensures
        views(r@) == segments(v@),
        r@.len() >= 1,
{
    let n = v.len();
    let mut parts: Vec<Vec<char>> = Vec::new();
    let mut i: usize = 0;
    let mut j = find_char_from(v, '/', 0);
    while j < n
        invariant
            n == v@.len(),
            i <= j <= n,
            j == first_index_of(v@, '/', i as int),
            segments(v@) == views(parts@) + split_from(v@, i as int),
        decreases n - i,
    {
        let seg = slice_chars(v, i, j);
        let ghost prev = parts@;
        parts.push(seg);
        assert(views(parts@) =~= views(prev).push(seg@));
        assert(split_from(v@, i as int) == seq![seg@] + split_from(v@, j + 1));
        assert(views(prev) + (seq![seg@] + split_from(v@, j + 1)) =~= views(parts@)
            + split_from(v@, j + 1));
        i = j + 1;
        j = find_char_from(v, '/', i);
    }
    let seg = slice_chars(v, i, n);
    let ghost prev = parts@;
    parts.push(seg);
    assert(split_from(v@, i as int) == seq![seg@]);
    assert(views(parts@) =~= views(prev) + seq![seg@]);
    parts
}

fn eq_str(v: &Vec<char>, s: &str) -> (r: bool)
    ensures
        r == (v@ == s@),
{
    let w = chars_of(s);
    chars_eq(v, &w)
}

fn is_hidden_chars(seg: &Vec<char>) -> (r: bool)
    ensures
        r == hidden_segment(seg@),
{
    let lower = lower_chars(seg);
    if lower.len() > 0 && lower[0] == '.' {
        return true;
    }
    let nm = eq_str(&lower, "node_modules");
    proof {
        reveal_strlit("node_modules");
        assert("node_modules"@ =~= seq!['n', 'o', 'd', 'e', '_', 'm', 'o', 'd', 'u', 'l', 'e', 's']);
    }
    nm
}

/// Whether one path segment marks a hidden or ignored item: it starts with `.`
/// or is `node_modules` (ASCII letter case ignored).
pub fn is_hidden_segment(segment: &str) -> (r: bool)
    ensures
        r == hidden_segment(segment@),
{
    let v = chars_of(segment);
    is_hidden_chars(&v)
}

/// Whether a `/`-separated relative path has a hidden segment.
pub fn is_hidden_path(rel_path: &str) -> (r: bool)
    ensures
        r == hidden_path(rel_path@),
{
    let v = chars_of(rel_path);
    is_hidden_chars_path(&v)
}

pub(crate) fn is_hidden_chars_path(v: &Vec<char>) -> (r: bool)
    ensures
        r == hidden_path(v@),
{
    let parts = split_segments(v);
    let mut k: usize = 0;
    while k < parts.len()
        invariant
            k <= parts@.len(),
            views(parts@) == segments(v@),
            forall|m: int| 0 <= m < k ==> !hidden_segment(#[trigger] segments(v@)[m]),
        decreases parts.len() - k,
    {
        let h = is_hidden_chars(&parts[k]);
        assert(views(parts@)[k as int] == parts@[k as int]@);
        if h {
            return true;
        }
        k += 1;
    }
    false
}

fn last_index(v: &Vec<char>, c: char) -> (r: Option<usize>)
    ensures
        match r {
            Some(d) => d == last_index_before(v@, c, v@.len() as int) && d < v@.len(),
            None => last_index_before(v@, c, v@.len() as int) == -1,
        },
{
    let mut i: usize = v.len();
    while i > 0 && v[i - 1] != c
        invariant
            i <= v@.len(),
            last_index_before(v@, c, v@.len() as int) == last_index_before(v@, c, i as int),
        decreases i,
    {
        i -= 1;
    }
    if i == 0 {
        None
    } else {
        Some(i - 1)
    }
}

/// The part of a path after its last `/`.
pub(crate) fn last_segment_chars(v: &Vec<char>) -> (r: Vec<char>)
    ensures
        r@ == last_segment(v@),
        r@.len() <= v@.len(),
{
    let d = last_index(v, '/');
    if let Some(d) = d {
        if d < v.len() {
            return slice_chars(v, d + 1, v.len());
        }
    }
    slice_chars(v, 0, v.len())
}

/// The extension of a file name, if it has one.
pub(crate) fn extension_chars(name: &Vec<char>) -> (r: Option<Vec<char>>)
    ensures
        match r {
            Some(e) => extension(name@) == Some(e@),
            None => extension(name@).is_none(),
        },
{
    let d = last_index(name, '.');
    if let Some(d) = d {
        if d > 0 && d < name.len() {
            return Some(slice_chars(name, d + 1, name.len()));
        }
    }
    None
}

/// A file name without its extension.
pub(crate) fn stem_chars(name: &Vec<char>) -> (r: Vec<char>)
    ensures
        r@ == stem(name@),
        r@.len() <= name@.len(),
{
    let d = last_index(name, '.');
    if let Some(d) = d {
        if d > 0 {
            return slice_chars(name, 0, d);
        }
    }
    let r = slice_chars(name, 0, name.len());
    assert(r@ =~= name@);
    r
}

/// Whether a file name has the extension `md` or `markdown` (any ASCII case).
pub fn is_markdown_file(file_name: &str) -> (r: bool)
    ensures
        r == markdown_name(file_name@),
{
    let v = chars_of(file_name);
    match extension_chars(&v) {
        Some(e) => {
            let l = lower_chars(&e);
            eq_str(&l, "md") || eq_str(&l, "markdown")
        },
        None => false,
    }
}

/// The name shown for a file of a listing: the stem of a markdown file, the
/// whole name of any other.
pub fn display_name_for_path(file_name: &str) -> (r: String)
    ensures
        r@ == (if markdown_name(file_name@) {
            stem(file_name@)
        } else {
            file_name@
        }),
{
    if is_markdown_file(file_name) {
        let v = chars_of(file_name);
        let s = stem_chars(&v);
        string_of(&s)
    } else {
        let v = chars_of(file_name);
        string_of(&v)
    }
}

/// The media type served for a file, by its extension (ASCII case ignored).
pub fn mime_for_path(file_name: &str) -> (r: String)
    ensures
        r@ == mime_of_name(file_name@),
{
    let v = chars_of(file_name);
    let e = match extension_chars(&v) {
        Some(e) => lower_chars(&e),
        None => Vec::new(),
    };
    assert(e@ == match extension(v@) {
        Some(x) => lower_seq(x),
        None => Seq::<char>::empty(),
    }) by {
        if extension(v@).is_none() {
            assert(e@ =~= Seq::<char>::empty());
        }
    }
    let m = if eq_str(&e, "png") {
        "image/png"
    } else if eq_str(&e, "jpg") || eq_str(&e, "jpeg") {
        "image/jpeg"
    } else if eq_str(&e, "gif") {
        "image/gif"
    } else if eq_str(&e, "webp") {
        "image/webp"
    } else if eq_str(&e, "svg") {
        "image/svg+xml"
    } else if eq_str(&e, "avif") {
        "image/avif"
    } else if eq_str(&e, "bmp") {
        "image/bmp"
    } else if eq_str(&e, "tif") || eq_str(&e, "tiff") {
        "image/tiff"
    } else {
        "application/octet-stream"
    };
    m.to_owned()
}

/// The kept segments of `parts`, joined with `/`, and their number.
fn join_kept(parts: &Vec<Vec<char>>, from: usize) -> (r: Vec<char>)
    requires
        from <= parts@.len(),
    ensures
        r@ == join(kept(views(parts@).skip(from as int))),
{
    let mut out: Vec<char> = Vec::new();
    let mut count: usize = 0;
    let mut k: usize = from;
    let ghost all = views(parts@).skip(from as int);
    assert(all.subrange(0, 0) =~= Seq::<Seq<char>>::empty());
    while k < parts.len()
        invariant
            from <= k <= parts@.len(),
            count <= k,
            all == views(parts@).skip(from as int),
            count == kept(all.subrange(0, k - from)).len(),
            out@ == join(kept(all.subrange(0, k - from))),
        decreases parts.len() - k,
    {
        let p = &parts[k];
        let ghost pre = all.subrange(0, k - from);
        assert(all.subrange(0, k + 1 - from).drop_last() =~= pre);
        assert(all.subrange(0, k + 1 - from).last() == p@);
        let dot = p.len() == 1 && p[0] == '.';
        assert(dot == (p@ == seq!['.'])) by {
            if p@ == seq!['.'] {
                assert(p@[0] == '.');
            }
            if dot {
                assert(p@ =~= seq!['.']);
            }
        }
        if p.len() > 0 && !dot {
            let ghost before = out@;
            if count > 0 {
                out.push('/');
            }
            let mut i: usize = 0;
            let ghost base = out@;
            while i < p.len()
                invariant
                    i <= p@.len(),
                    out@ == base + p@.subrange(0, i as int),
                decreases p.len() - i,
            {
                out.push(p[i]);
                assert(out@ =~= base + p@.subrange(0, i + 1));
                i += 1;
            }
            proof {
                let kp = kept(pre);
                assert(kept(all.subrange(0, k + 1 - from)) == kp.push(p@));
                assert(kp.push(p@).drop_last() =~= kp);
                assert(p@.subrange(0, p@.len() as int) =~= p@);
                if count == 0 {
                    assert(kp.push(p@).len() == 1);
                    assert(out@ =~= p@);
                } else {
                    assert(out@ =~= before + seq!['/'] + p@);
                }
            }
            count = count + 1;
        }
        k += 1;
    }
    assert(all.subrange(0, k - from) =~= all);
    out
}

/// A caller-supplied relative path made safe to join onto the vault root:
/// refused when absolute or holding a `..` segment; `.` and empty segments
/// are dropped; the rest is joined with `/`.
pub fn sanitize_rel_path(rel_path: &str) -> (r: Result<String, PathError>)
    ensures
        match r {
            Ok(p) => !rooted(rel_path@) && !segments(rel_path@).contains(parent_segment()) && kept(
                segments(rel_path@),
            ).len() > 0 && p@ == join(kept(segments(rel_path@))),
            Err(e) => ((rooted(rel_path@) || segments(rel_path@).contains(parent_segment())) && e
                == PathError::UnsafePath) || (!rooted(rel_path@) && !segments(
                rel_path@,
            ).contains(parent_segment()) && kept(segments(rel_path@)).len() == 0 && e
                == PathError::EmptyPath),
        },
{
    let v = chars_of(rel_path);
    if v.len() > 0 && v[0] == '/' {
        return Err(PathError::UnsafePath);
    }
    let parts = split_segments(&v);
    let mut k: usize = 0;
    while k < parts.len()
        invariant
            k <= parts@.len(),
            v@ == rel_path@,
            views(parts@) == segments(v@),
            forall|m: int| 0 <= m < k ==> segments(v@)[m] != parent_segment(),
        decreases parts.len() - k,
    {
        let p = &parts[k];
        assert(views(parts@)[k as int] == p@);
        if p.len() == 2 && p[0] == '.' && p[1] == '.' {
            assert(p@ =~= parent_segment());
            assert(views(parts@).len() == parts@.len());
            assert(segments(v@)[k as int] == parent_segment());
            return Err(PathError::UnsafePath);
        }
        assert(p@ != parent_segment()) by {
            if p@ == parent_segment() {
                assert(p@[0] == '.' && p@[1] == '.');
            }
        }
        k += 1;
    }
    let out = join_kept(&parts, 0);
    assert(views(parts@).skip(0) =~= views(parts@));
    if out.len() == 0 {
        proof {
            lemma_kept_nonempty(segments(v@));
            lemma_join_empty(kept(segments(v@)));
        }
        return Err(PathError::EmptyPath);
    }
    proof {
        if kept(segments(v@)).len() == 0 {
            assert(join(kept(segments(v@))).len() == 0);
        }
    }
    Ok(string_of(&out))
}

/// Every kept segment is non-empty.
proof fn lemma_kept_nonempty(parts: Seq<Seq<char>>)
    ensures
        forall|i: int| 0 <= i < kept(parts).len() ==> kept(parts)[i].len() > 0,
    decreases parts.len(),
{
    if parts.len() > 0 {
        lemma_kept_nonempty(parts.drop_last());
        let prev = kept(parts.drop_last());
        assert forall|i: int| 0 <= i < kept(parts).len() implies kept(parts)[i].len() > 0 by {
            if i < prev.len() {
                assert(kept(parts)[i] == prev[i]);
            }
        }
    }
}

/// Joining only empty text yields empty text only when nothing is kept.
proof fn lemma_join_empty(parts: Seq<Seq<char>>)
    requires
        forall|i: int| 0 <= i < parts.len() ==> parts[i].len() > 0,
        join(parts).len() == 0,
    ensures
        parts.len() == 0,
    decreases parts.len(),
{
    if parts.len() > 1 {
        assert(join(parts).len() >= parts.last().len());
    }
}

/// The segments of `parts` that name something, in order.
pub(crate) fn kept_parts(parts: &Vec<Vec<char>>) -> (r: Vec<Vec<char>>)
    ensures
        views(r@) == kept(views(parts@)),
{
    let mut r: Vec<Vec<char>> = Vec::new();
    let mut k: usize = 0;
    while k < parts.len()
        invariant
            k <= parts@.len(),
            views(r@) == kept(views(parts@).subrange(0, k as int)),
        decreases parts.len() - k,
    {
        let p = &parts[k];
        let ghost cur = views(parts@).subrange(0, k + 1);
        assert(cur.drop_last() =~= views(parts@).subrange(0, k as int));
        assert(cur.last() == p@);
        let dot = p.len() == 1 && p[0] == '.';
        assert(dot == (p@ == seq!['.'])) by {
            if p@ == seq!['.'] {
                assert(p@[0] == '.');
            }
            if dot {
                assert(p@ =~= seq!['.']);
            }
        }
        if p.len() > 0 && !dot {
            let c = slice_chars(p, 0, p.len());
            assert(c@ =~= p@);
            let ghost prev = r@;
            r.push(c);
            assert(views(r@) =~= views(prev).push(p@));
        }
        k += 1;
    }
    assert(views(parts@).subrange(0, parts@.len() as int) =~= views(parts@));
    r
}

/// Keeping the named segments of a list of named segments changes nothing.
proof fn lemma_kept_of_kept(parts: Seq<Seq<char>>)
    ensures
        kept(kept(parts)) == kept(parts),
    decreases parts.len(),
{
    if parts.len() > 0 {
        lemma_kept_of_kept(parts.drop_last());
        let p = parts.last();
        if !(p.len() == 0 || p == seq!['.']) {
            assert(kept(parts).drop_last() =~= kept(parts.drop_last()));
        }
    }
}

/// `path` lies under `root`, compared segment by segment: both absolute or
/// both relative, and the named segments of `root` begin those of `path`.
pub open spec fn under_root(root: Seq<char>, path: Seq<char>) -> bool {
    let rp = kept(segments(root));
    let pp = kept(segments(path));
    &&& rooted(root) == rooted(path)
    &&& rp.len() <= pp.len()
    &&& pp.subrange(0, rp.len() as int) == rp
}

/// The named segments of `path` after those of `root`.
pub open spec fn rest_under(root: Seq<char>, path: Seq<char>) -> Seq<Seq<char>> {
    kept(segments(path)).skip(kept(segments(root)).len() as int)
}

/// Whether `path` lies under `root`, segment by segment.
pub fn is_within_root(root: &str, path: &str) -> (r: bool)
    ensures
        r == under_root(root@, path@),
{
    let rv = chars_of(root);
    let pv = chars_of(path);
    let rs = split_segments(&rv);
    let ps = split_segments(&pv);
    let rp = kept_parts(&rs);
    let pp = kept_parts(&ps);
    let r_rooted = rv.len() > 0 && rv[0] == '/';
    let p_rooted = pv.len() > 0 && pv[0] == '/';
    if r_rooted != p_rooted || rp.len() > pp.len() {
        return false;
    }
    let mut k: usize = 0;
    while k < rp.len()
        invariant
            k <= rp@.len() <= pp@.len(),
            views(rp@) == kept(segments(root@)),
            views(pp@) == kept(segments(path@)),
            rooted(root@) == rooted(path@),
            forall|q: int| 0 <= q < k ==> rp@[q]@ == pp@[q]@,
        decreases rp.len() - k,
    {
        if !chars_eq(&rp[k], &pp[k]) {
            assert(views(pp@).subrange(0, rp@.len() as int)[k as int] != views(rp@)[k as int]);
            return false;
        }
        k += 1;
    }
    assert(views(pp@).subrange(0, rp@.len() as int) =~= views(rp@));
    true
}

/// The path of `path` relative to `root`, segments joined by `/`; refused when
/// `path` does not lie under `root` or what follows holds a `..` segment.
pub fn path_to_rel_string(root: &str, path: &str) -> (r: Result<String, PathError>)
    ensures
        match r {
            Ok(s) => under_root(root@, path@) && !rest_under(root@, path@).contains(parent_segment())
                && s@ == join(rest_under(root@, path@)),
            Err(e) => e == PathError::UnsafePath && (!under_root(root@, path@) || rest_under(
                root@,
                path@,
            ).contains(parent_segment())),
        },
{
    if !is_within_root(root, path) {
        return Err(PathError::UnsafePath);
    }
    let rv = chars_of(root);
    let pv = chars_of(path);
    let rs = split_segments(&rv);
    let ps = split_segments(&pv);
    let rp = kept_parts(&rs);
    let pp = kept_parts(&ps);
    let ghost rest = rest_under(root@, path@);
    assert(views(pp@).skip(rp@.len() as int) =~= rest);
    let mut k: usize = rp.len();
    while k < pp.len()
        invariant
            rp@.len() <= k <= pp@.len(),
            views(pp@).skip(rp@.len() as int) == rest,
            rest == rest_under(root@, path@),
            under_root(root@, path@),
            forall|q: int| rp@.len() <= q < k ==> pp@[q]@ != parent_segment(),
        decreases pp.len() - k,
    {
        let p = &pp[k];
        if p.len() == 2 && p[0] == '.' && p[1] == '.' {
            assert(p@ =~= parent_segment());
            assert(rest[k - rp@.len()] == parent_segment());
            return Err(PathError::UnsafePath);
        }
        assert(p@ != parent_segment()) by {
            if p@ == parent_segment() {
                assert(p@[0] == '.' && p@[1] == '.');
            }
        }
        k += 1;
    }
    assert(!rest.contains(parent_segment())) by {
        if rest.contains(parent_segment()) {
            let w = choose|w: int| 0 <= w < rest.len() && rest[w] == parent_segment();
            assert(pp@[w + rp@.len()]@ == rest[w]);
        }
    }
    let out = join_kept(&pp, rp.len());
    proof {
        lemma_kept_of_kept(segments(pv@));
        lemma_kept_skip(views(pp@), rp@.len() as int);
    }
    Ok(string_of(&out))
}

/// Keeping the named segments of a suffix of named segments changes nothing.
proof fn lemma_kept_skip(parts: Seq<Seq<char>>, from: int)
    requires
        0 <= from <= parts.len(),
        kept(parts) == parts,
    ensures
        kept(parts.skip(from)) == parts.skip(from),
    decreases parts.len(),
{
    if from < parts.len() {
        let p = parts.last();
        assert(kept(parts.drop_last()).len() <= parts.drop_last().len()) by {
            lemma_kept_len(parts.drop_last());
        }
        if p.len() == 0 || p == seq!['.'] {
            lemma_kept_len(parts.drop_last());
            assert(false);
        }
        assert(kept(parts.drop_last()).push(p) == parts);
        assert(kept(parts.drop_last()) =~= parts.drop_last());
        lemma_kept_skip(parts.drop_last(), from);
        assert(parts.skip(from).drop_last() =~= parts.drop_last().skip(from));
        assert(parts.skip(from).last() == p);
    } else {
        assert(parts.skip(from) =~= Seq::<Seq<char>>::empty());
    }
}

proof fn lemma_kept_len(parts: Seq<Seq<char>>)
    ensures
        kept(parts).len() <= parts.len(),
    decreases parts.len(),
{
    if parts.len() > 0 {
        lemma_kept_len(parts.drop_last());
    }
}

/// The checks on a path joined onto the vault root (and, for an existing
/// file, with symlinks resolved), in order: it must lie under the root; if it
/// was probed (`is_file` is `Some`), it must be a file; if `note_only`, its
/// name must have a markdown extension.
pub fn check_resolved_path(root: &str, candidate: &str, is_file: Option<bool>, note_only: bool) -> (r:
    Result<(), PathError>)
    ensures
        !under_root(root@, candidate@) ==> r == Err::<(), PathError>(PathError::UnsafePath),
        under_root(root@, candidate@) && is_file == Some(false) ==> r == Err::<(), PathError>(
            PathError::NotAFile,
        ),
        under_root(root@, candidate@) && is_file != Some(false) && note_only && !markdown_name(
            last_segment(candidate@),
        ) ==> r == Err::<(), PathError>(PathError::NotMarkdown),
        under_root(root@, candidate@) && is_file != Some(false) && (!note_only || markdown_name(
            last_segment(candidate@),
        )) ==> r.is_ok(),
{
    if !is_within_root(root, candidate) {
        return Err(PathError::UnsafePath);
    }
    if is_file == Some(false) {
        return Err(PathError::NotAFile);
    }
    if note_only {
        let v = chars_of(candidate);
        let name = last_segment_chars(&v);
        let name_str = string_of(&name);
        if !is_markdown_file(name_str.as_str()) {
            return Err(PathError::NotMarkdown);
        }
    }
    Ok(())
}

} // verus!
