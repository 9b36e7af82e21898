//! The link graph of a vault: one node per shown note, one edge per linked
//! pair of shown notes, with in- and out-degrees.
use vstd::prelude::*;
use crate::backlinks::{links_of, note_links, ScannedNote};
use crate::order::{lists, sort_order, sorted_order};
use crate::paths::{
    hidden_path, is_hidden_chars_path, is_markdown_file, last_segment, last_segment_chars, markdown_name,
    stem, stem_chars,
};
use crate::text::{chars_eq, chars_of, lower_chars, lower_of, lower_seq, slice_chars, string_of, unicode_lower};
use crate::wikilink::views;

verus! {

/// A node of the graph: one note.
#[derive(Debug)]
pub struct GraphNode {
    /// Lower-cased relative path without its markdown extension.
    pub id: String,
    /// File name without its extension.
    pub title: String,
    /// Path relative to the vault root.
    pub rel_path: String,
    /// Whether some segment of the path is hidden.
    pub is_hidden: bool,
    /// Number of resolved links to this note from shown notes.
    pub degree_in: u32,
    /// Number of distinct link keys in this note, resolved or not.
    pub degree_out: u32,
    /// Creation time in milliseconds, where known.
    pub created_at: Option<u64>,
    /// Modification time in milliseconds, where known.
    pub modified_at: Option<u64>,
}

/// An edge of the graph: a note linking to another.
#[derive(Debug)]
pub struct GraphEdge {
    /// Id of the linking note.
    pub source_id: String,
    /// Id of the linked note.
    pub target_id: String,
    /// Number of distinct link keys of the source that resolve to the target.
    pub count: u32,
}

/// The nodes and edges of a vault's graph.
#[derive(Debug)]
pub struct GraphData {
    pub nodes: Vec<GraphNode>,
    pub edges: Vec<GraphEdge>,
}

/// Options for building the graph.
#[derive(Debug, Clone, Copy)]
pub struct GraphOptions {
    /// Include notes with a hidden path segment.
    pub show_hidden: bool,
}

/// A path without the extension of its file name, when that is a markdown
/// extension (`md` or `markdown`, any letter case).
pub open spec fn strip_ext(p: Seq<char>) -> Seq<char> {
    let name = last_segment(p);
    if markdown_name(name) {
        p.subrange(0, p.len() - (name.len() - stem(name).len()))
    } else {
        p
    }
}

/// The id of the note at path `p`: the lower-cased path without its extension.
pub open spec fn note_id(p: Seq<char>) -> Seq<char> {
    lower_seq(strip_ext(p))
}

/// The key under which a note is found by its bare name: its lower-cased stem.
pub open spec fn stem_key(p: Seq<char>) -> Seq<char> {
    lower_seq(stem(last_segment(p)))
}

/// The title of the note at path `p`: its file name without extension.
pub open spec fn note_title(p: Seq<char>) -> Seq<char> {
    stem(last_segment(p))
}

/// The path of note `i`.
pub open spec fn path_of(notes: Seq<ScannedNote>, i: int) -> Seq<char> {
    notes[i].rel_path@
}

/// Entry `e` of the lookup index: the bare-name keys of all notes, then their
/// full-path keys.
pub open spec fn index_key(notes: Seq<ScannedNote>, e: int) -> Seq<char> {
    if e < notes.len() {
        stem_key(path_of(notes, e))
    } else {
        note_id(path_of(notes, e - notes.len()))
    }
}

/// The note of the first index entry at or after `e` whose key is `key`.
pub open spec fn resolve_from(notes: Seq<ScannedNote>, key: Seq<char>, e: int) -> Option<int>
    decreases 2 * notes.len() - e,
{
    if e < 0 || e >= 2 * notes.len() {
        None
    } else if index_key(notes, e) == key {
        Some(
            if e < notes.len() {
                e
            } else {
                e - notes.len()
            },
        )
    } else {
        resolve_from(notes, key, e + 1)
    }
}

/// The note a link key resolves to: the first note whose bare name gives the
/// key, else the first whose full path gives it.
pub open spec fn resolve(notes: Seq<ScannedNote>, key: Seq<char>) -> Option<int> {
    resolve_from(notes, key, 0)
}

/// Note `t` takes part in the graph.
pub open spec fn shown(notes: Seq<ScannedNote>, show_hidden: bool, t: int) -> bool {
    show_hidden || !hidden_path(path_of(notes, t))
}

/// The shown notes that the keys resolve to, one entry per key that resolves.
pub open spec fn targets(notes: Seq<ScannedNote>, show_hidden: bool, keys: Seq<Seq<char>>) -> Seq<
    int,
>
    decreases keys.len(),
{
    if keys.len() == 0 {
        seq![]
    } else {
        let prev = targets(notes, show_hidden, keys.drop_last());
        match resolve(notes, keys.last()) {
            Some(t) => if shown(notes, show_hidden, t) {
                prev.push(t)
            } else {
                prev
            },
            None => prev,
        }
    }
}

/// The resolved, shown targets of note `s`'s links.
pub open spec fn out_targets(notes: Seq<ScannedNote>, show_hidden: bool, s: int) -> Seq<int> {
    targets(notes, show_hidden, note_links(notes[s]))
}

/// How often `t` occurs in `r`.
pub open spec fn count(r: Seq<int>, t: int) -> nat
    decreases r.len(),
{
    if r.len() == 0 {
        0
    } else {
        count(r.drop_last(), t) + if r.last() == t {
            1nat
        } else {
            0nat
        }
    }
}

/// The elements of `r`, each once, in order of first occurrence.
pub open spec fn distinct(r: Seq<int>) -> Seq<int>
    decreases r.len(),
{
    if r.len() == 0 {
        seq![]
    } else {
        let prev = distinct(r.drop_last());
        if prev.contains(r.last()) {
            prev
        } else {
            prev.push(r.last())
        }
    }
}

/// Links into note `t` from the shown notes before index `k`.
pub open spec fn in_degree_upto(notes: Seq<ScannedNote>, show_hidden: bool, k: int, t: int) -> nat
    decreases k,
{
    if k <= 0 {
        0
    } else {
        in_degree_upto(notes, show_hidden, k - 1, t) + if shown(notes, show_hidden, k - 1) {
            count(out_targets(notes, show_hidden, k - 1), t)
        } else {
            0
        }
    }
}

/// Links into note `t` from all shown notes.
pub open spec fn in_degree(notes: Seq<ScannedNote>, show_hidden: bool, t: int) -> nat {
    in_degree_upto(notes, show_hidden, notes.len() as int, t)
}

/// The edges out of shown note `s`: (source, target, count), targets in order
/// of first link.
pub open spec fn source_edges(notes: Seq<ScannedNote>, show_hidden: bool, s: int) -> Seq<
    (int, int, nat),
> {
    let r = out_targets(notes, show_hidden, s);
    distinct(r).map_values(|t: int| (s, t, count(r, t)))
}

/// The edges out of the shown notes before index `k`.
pub open spec fn edges_upto(notes: Seq<ScannedNote>, show_hidden: bool, k: int) -> Seq<
    (int, int, nat),
>
    decreases k,
{
    if k <= 0 {
        seq![]
    } else {
        edges_upto(notes, show_hidden, k - 1) + if shown(notes, show_hidden, k - 1) {
            source_edges(notes, show_hidden, k - 1)
        } else {
            seq![]
        }
    }
}

/// All edges of the graph, as (source, target, count) over note indices.
pub open spec fn graph_edges(notes: Seq<ScannedNote>, show_hidden: bool) -> Seq<(int, int, nat)> {
    edges_upto(notes, show_hidden, notes.len() as int)
}

/// The indices of the shown notes before index `k`, in order.
pub open spec fn shown_upto(notes: Seq<ScannedNote>, show_hidden: bool, k: int) -> Seq<int>
    decreases k,
{
    if k <= 0 {
        seq![]
    } else {
        let prev = shown_upto(notes, show_hidden, k - 1);
        if shown(notes, show_hidden, k - 1) {
            prev.push(k - 1)
        } else {
            prev
        }
    }
}

/// The indices of the shown notes, in order.
pub open spec fn shown_notes(notes: Seq<ScannedNote>, show_hidden: bool) -> Seq<int> {
    shown_upto(notes, show_hidden, notes.len() as int)
}

/// The sort keys of the shown notes: their lower-cased titles.
pub open spec fn node_keys(notes: Seq<ScannedNote>, show_hidden: bool) -> Seq<Seq<char>> {
    shown_notes(notes, show_hidden).map_values(|s: int| lower_of(note_title(path_of(notes, s))))
}

/// The length of a note's text, zero when it could not be read.
pub open spec fn text_len(n: ScannedNote) -> nat {
    match n.text {
        Some(t) => t@.len(),
        None => 0,
    }
}

/// The total length of all notes' texts.
pub open spec fn total_text(notes: Seq<ScannedNote>) -> nat
    decreases notes.len(),
{
    if notes.len() == 0 {
        0
    } else {
        total_text(notes.drop_last()) + text_len(notes.last())
    }
}

/// `node` describes note `s`.
pub open spec fn node_is(node: GraphNode, notes: Seq<ScannedNote>, show_hidden: bool, s: int) -> bool {
    let p = path_of(notes, s);
    &&& node.id@ == note_id(p)
    &&& node.title@ == note_title(p)
    &&& node.rel_path@ == p
    &&& node.is_hidden == hidden_path(p)
    &&& node.degree_in == in_degree(notes, show_hidden, s)
    &&& node.degree_out == note_links(notes[s]).len()
    &&& node.created_at == notes[s].created_at
    &&& node.modified_at == notes[s].modified_at
}

/// `edge` describes the edge `x` over note indices.
pub open spec fn edge_is(edge: GraphEdge, notes: Seq<ScannedNote>, x: (int, int, nat)) -> bool {
    &&& edge.source_id@ == note_id(path_of(notes, x.0))
    &&& edge.target_id@ == note_id(path_of(notes, x.1))
    &&& edge.count == x.2
}

fn strip_ext_chars(p: &Vec<char>) -> (r: Vec<char>)
    ensures
        r@ == strip_ext(p@),
{
    let name = last_segment_chars(p);
    let name_str = string_of(&name);
    if is_markdown_file(name_str.as_str()) {
        let st = stem_chars(&name);
        slice_chars(p, 0, p.len() - (name.len() - st.len()))
    } else {
        slice_chars(p, 0, p.len())
    }
}

fn note_id_chars(p: &Vec<char>) -> (r: Vec<char>)
    ensures
        r@ == note_id(p@),
{
    let s = strip_ext_chars(p);
    lower_chars(&s)
}

fn stem_key_chars(p: &Vec<char>) -> (r: Vec<char>)
    ensures
        r@ == stem_key(p@),
{
    let l = last_segment_chars(p);
    let s = stem_chars(&l);
    lower_chars(&s)
}

/// The keys of the lookup index, in entry order.
fn index_keys(notes: &Vec<ScannedNote>) -> (r: Vec<Vec<char>>)
    requires
        notes@.len() <= usize::MAX / 2,
    ensures
        r@.len() == 2 * notes@.len(),
        forall|e: int| 0 <= e < r@.len() ==> #[trigger] r@[e]@ == index_key(notes@, e),
{
    let n = notes.len();
    let mut keys: Vec<Vec<char>> = Vec::new();
    let mut e: usize = 0;
    while e < 2 * n
        invariant
            n == notes@.len() <= usize::MAX / 2,
            e <= 2 * n,
            keys@.len() == e,
            forall|q: int| 0 <= q < e ==> #[trigger] keys@[q]@ == index_key(notes@, q),
        decreases 2 * n - e,
    {
        let p = if e < n {
            chars_of(notes[e].rel_path.as_str())
        } else {
            chars_of(notes[e - n].rel_path.as_str())
        };
        let key = if e < n {
            stem_key_chars(&p)
        } else {
            note_id_chars(&p)
        };
        keys.push(key);
        e += 1;
    }
    keys
}

/// The note that `key` resolves to.
fn resolve_key(notes: &Vec<ScannedNote>, keys: &Vec<Vec<char>>, key: &Vec<char>) -> (r: Option<
    usize,
>)
    requires
        keys@.len() == 2 * notes@.len(),
        forall|e: int| 0 <= e < keys@.len() ==> #[trigger] keys@[e]@ == index_key(notes@, e),
    ensures
        match r {
            Some(t) => resolve(notes@, key@) == Some(t as int) && t < notes@.len(),
            None => resolve(notes@, key@).is_none(),
        },
{
    let n = notes.len();
    let mut e: usize = 0;
    while e < keys.len()
        invariant
            keys@.len() == 2 * n,
            n == notes@.len(),
            forall|q: int| 0 <= q < keys@.len() ==> #[trigger] keys@[q]@ == index_key(notes@, q),
            e <= keys@.len(),
            resolve(notes@, key@) == resolve_from(notes@, key@, e as int),
        decreases keys.len() - e,
    {
        assert(keys@[e as int]@ == index_key(notes@, e as int));
        if chars_eq(&keys[e], key) {
            return if e < n {
                Some(e)
            } else {
                Some(e - n)
            };
        }
        e += 1;
    }
    None
}

/// The resolved, shown targets of a list of link keys.
fn resolved_targets(
    notes: &Vec<ScannedNote>,
    keys: &Vec<Vec<char>>,
    shown_flags: &Vec<bool>,
    show_hidden: bool,
    links: &Vec<Vec<char>>,
) -> (r: Vec<usize>)
    requires
        keys@.len() == 2 * notes@.len(),
        forall|e: int| 0 <= e < keys@.len() ==> #[trigger] keys@[e]@ == index_key(notes@, e),
        shown_flags@.len() == notes@.len(),
        forall|t: int| 0 <= t < notes@.len() ==> #[trigger] shown_flags@[t] == shown(notes@, show_hidden, t),
    ensures
        r@.map_values(|x: usize| x as int) == targets(notes@, show_hidden, views(links@)),
        r@.len() <= links@.len(),
        forall|j: int| 0 <= j < r@.len() ==> #[trigger] r@[j] < notes@.len(),
{
    let mut r: Vec<usize> = Vec::new();
    let mut j: usize = 0;
    while j < links.len()
        invariant
            keys@.len() == 2 * notes@.len(),
            forall|e: int| 0 <= e < keys@.len() ==> #[trigger] keys@[e]@ == index_key(notes@, e),
            shown_flags@.len() == notes@.len(),
            forall|t: int| 0 <= t < notes@.len() ==> #[trigger] shown_flags@[t] == shown(notes@, show_hidden, t),
            j <= links@.len(),
            r@.len() <= j,
            r@.map_values(|x: usize| x as int) == targets(notes@, show_hidden, views(links@).subrange(0, j as int)),
            forall|q: int| 0 <= q < r@.len() ==> #[trigger] r@[q] < notes@.len(),
        decreases links.len() - j,
    {
        let ghost ls = views(links@).subrange(0, j + 1);
        assert(ls.drop_last() =~= views(links@).subrange(0, j as int));
        assert(ls.last() == links@[j as int]@);
        let ghost prev = r@;
        match resolve_key(notes, keys, &links[j]) {
            Some(t) => {
                if shown_flags[t] {
                    r.push(t);
                    assert(r@.map_values(|x: usize| x as int) =~= prev.map_values(|x: usize| x as int).push(t as int));
                }
            },
            None => {},
        }
        j += 1;
    }
    assert(views(links@).subrange(0, links@.len() as int) =~= views(links@));
    r
}

/// The distinct elements of `r` hold no element twice.
proof fn lemma_distinct_unique(r: Seq<int>)
    ensures
        forall|i: int, j: int|
            0 <= i < j < distinct(r).len() ==> distinct(r)[i] != distinct(r)[j],
    decreases r.len(),
{
    if r.len() > 0 {
        lemma_distinct_unique(r.drop_last());
        let prev = distinct(r.drop_last());
        if !prev.contains(r.last()) {
            assert forall|i: int, j: int|
                0 <= i < j < distinct(r).len() implies distinct(r)[i] != distinct(r)[j] by {
                if j == prev.len() {
                    assert(distinct(r)[i] == prev[i]);
                }
            }
        }
    }
}

/// If `x` is not among the distinct elements of `r`, it does not occur in `r`.
proof fn lemma_count_absent(r: Seq<int>, x: int)
    requires
        !distinct(r).contains(x),
    ensures
        count(r, x) == 0,
    decreases r.len(),
{
    if r.len() > 0 {
        let prev = distinct(r.drop_last());
        if prev.contains(x) {
            let i = choose|i: int| 0 <= i < prev.len() && prev[i] == x;
            if !prev.contains(r.last()) {
                assert(distinct(r)[i] == x);
            }
        }
        if r.last() == x && !prev.contains(x) {
            assert(distinct(r)[prev.len() as int] == x);
        }
        lemma_count_absent(r.drop_last(), x);
    }
}

/// The distinct elements of `r` in order of first occurrence, each with its
/// number of occurrences.
fn tally(r: &Vec<usize>) -> (out: Vec<(usize, u32)>)
    requires
        r@.len() <= u32::MAX,
    ensures
        out@.map_values(|p: (usize, u32)| p.0 as int) == distinct(r@.map_values(|x: usize| x as int)),
        forall|m: int| 0 <= m < out@.len() ==> #[trigger] out@[m].1 == count(r@.map_values(|x: usize| x as int), out@[m].0 as int),
{
    let ghost ri = r@.map_values(|x: usize| x as int);
    let mut out: Vec<(usize, u32)> = Vec::new();
    let mut j: usize = 0;
    while j < r.len()
        invariant
            ri == r@.map_values(|x: usize| x as int),
            r@.len() <= u32::MAX,
            j <= r@.len(),
            out@.map_values(|p: (usize, u32)| p.0 as int) == distinct(ri.subrange(0, j as int)),
            forall|m: int| 0 <= m < out@.len() ==> #[trigger] out@[m].1 == count(ri.subrange(0, j as int), out@[m].0 as int),
            forall|m: int| 0 <= m < out@.len() ==> #[trigger] out@[m].1 <= j,
        decreases r.len() - j,
    {
        let x = r[j];
        let ghost pre = ri.subrange(0, j as int);
        let ghost cur = ri.subrange(0, j + 1);
        assert(cur.drop_last() =~= pre);
        assert(cur.last() == x as int);
        let ghost keys_before = out@.map_values(|p: (usize, u32)| p.0 as int);
        let mut m: usize = 0;
        while m < out.len() && out[m].0 != x
            invariant
                m <= out@.len(),
                forall|q: int| 0 <= q < m ==> out@[q].0 != x,
            decreases out.len() - m,
        {
            m += 1;
        }
        let ghost old_out = out@;
        if m < out.len() {
            assert(keys_before[m as int] == x as int);
            assert(distinct(pre).contains(x as int));
            let c = out[m].1;
            out.set(m, (x, c + 1));
            assert(out@.map_values(|p: (usize, u32)| p.0 as int) =~= keys_before);
            proof {
                lemma_distinct_unique(pre);
            }
            assert forall|q: int| 0 <= q < out@.len() implies #[trigger] out@[q].1 == count(cur, out@[q].0 as int) by {
                assert(out@[q].0 == old_out[q].0);
                if q != m {
                    assert(keys_before[q] == old_out[q].0 as int);
                    assert(keys_before[q] != keys_before[m as int]);
                    assert(out@[q] == old_out[q]);
                }
            }
            assert forall|q: int| 0 <= q < out@.len() implies #[trigger] out@[q].1 <= j + 1 by {
                assert(old_out[q].1 <= j);
            }
        } else {
            assert(!distinct(pre).contains(x as int)) by {
                if distinct(pre).contains(x as int) {
                    let i = choose|i: int| 0 <= i < distinct(pre).len() && distinct(pre)[i] == x as int;
                    assert(keys_before[i] == old_out[i].0 as int);
                }
            }
            proof {
                lemma_count_absent(pre, x as int);
            }
            out.push((x, 1));
            assert(out@.map_values(|p: (usize, u32)| p.0 as int) =~= keys_before.push(x as int));
            assert forall|q: int| 0 <= q < out@.len() implies #[trigger] out@[q].1 == count(cur, out@[q].0 as int) by {
                if q < old_out.len() {
                    assert(out@[q] == old_out[q]);
                    assert(old_out[q].0 != x);
                }
            }
            assert forall|q: int| 0 <= q < out@.len() implies #[trigger] out@[q].1 <= j + 1 by {
                if q < old_out.len() {
                    assert(out@[q] == old_out[q]);
                }
            }
        }
        j += 1;
    }
    assert(ri.subrange(0, r@.len() as int) =~= ri);
    out
}

/// The graph `g` is the one built from `notes`: edges in source order, then
/// in order of first link; nodes sorted by lower-cased title, ties in scan order.
pub open spec fn is_graph_of(notes: Seq<ScannedNote>, show_hidden: bool, g: GraphData) -> bool {
    &&& g.edges@.len() == graph_edges(notes, show_hidden).len()
    &&& forall|j: int|
        0 <= j < g.edges@.len() ==> #[trigger] edge_is(
            g.edges@[j],
            notes,
            graph_edges(notes, show_hidden)[j],
        )
    &&& exists|ord: Seq<usize>|
        {
            &&& sorted_order(node_keys(notes, show_hidden), ord)
            &&& g.nodes@.len() == ord.len()
            &&& forall|k: int|
                0 <= k < ord.len() ==> #[trigger] node_is(
                    g.nodes@[k],
                    notes,
                    show_hidden,
                    shown_notes(notes, show_hidden)[ord[k] as int],
                )
        }
}

proof fn lemma_total_step(notes: Seq<ScannedNote>, k: int)
    requires
        0 <= k < notes.len(),
    ensures
        total_text(notes.take(k + 1)) == total_text(notes.take(k)) + text_len(notes[k]),
{
    assert(notes.take(k + 1).drop_last() =~= notes.take(k));
}

proof fn lemma_total_prefix(notes: Seq<ScannedNote>, k: int)
    requires
        0 <= k <= notes.len(),
    ensures
        total_text(notes.take(k)) <= total_text(notes),
    decreases notes.len(),
{
    if k == notes.len() {
        assert(notes.take(k) =~= notes);
    } else {
        lemma_total_prefix(notes.drop_last(), k);
        assert(notes.drop_last().take(k) =~= notes.take(k));
    }
}

fn make_node(notes: &Vec<ScannedNote>, s: usize, degree_in: u32, degree_out: u32) -> (r: GraphNode)
    requires
        s < notes@.len(),
    ensures
        r.id@ == note_id(path_of(notes@, s as int)),
        r.title@ == note_title(path_of(notes@, s as int)),
        r.rel_path@ == path_of(notes@, s as int),
        r.is_hidden == hidden_path(path_of(notes@, s as int)),
        r.degree_in == degree_in,
        r.degree_out == degree_out,
        r.created_at == notes@[s as int].created_at,
        r.modified_at == notes@[s as int].modified_at,
{
    let note = &notes[s];
    let p = chars_of(note.rel_path.as_str());
    let id = note_id_chars(&p);
    let last = last_segment_chars(&p);
    let title = stem_chars(&last);
    GraphNode {
        id: string_of(&id),
        title: string_of(&title),
        rel_path: string_of(&p),
        is_hidden: is_hidden_chars_path(&p),
        degree_in,
        degree_out,
        created_at: note.created_at,
        modified_at: note.modified_at,
    }
}

/// The link graph of the scanned notes. A note with a hidden path segment
/// takes part only when `options.show_hidden` is set; links resolve against
/// all notes; a note that could not be read has no links.
pub fn build_graph_impl(notes: &Vec<ScannedNote>, options: GraphOptions) -> (r: GraphData)
    requires
        notes@.len() <= usize::MAX / 2,
        total_text(notes@) <= u32::MAX,
    ensures
        is_graph_of(notes@, options.show_hidden, r),
{
    let ghost ns = notes@;
    let sh = options.show_hidden;
    let n = notes.len();
    let keys = index_keys(notes);
    let mut flags: Vec<bool> = Vec::new();
    let mut ids: Vec<Vec<char>> = Vec::new();
    let mut in_deg: Vec<u32> = Vec::new();
    let mut i: usize = 0;
    while i < n
        invariant
            n == notes@.len(),
            i <= n,
            flags@.len() == i,
            ids@.len() == i,
            in_deg@.len() == i,
            forall|t: int| 0 <= t < i ==> #[trigger] flags@[t] == shown(notes@, sh, t),
            forall|t: int| 0 <= t < i ==> #[trigger] ids@[t]@ == note_id(path_of(notes@, t)),
            forall|t: int| 0 <= t < i ==> #[trigger] in_deg@[t] == 0,
        decreases n - i,
    {
        let p = chars_of(notes[i].rel_path.as_str());
        flags.push(sh || !is_hidden_chars_path(&p));
        ids.push(note_id_chars(&p));
        in_deg.push(0);
        i += 1;
    }
    let mut outs: Vec<u32> = Vec::new();
    let mut edges: Vec<GraphEdge> = Vec::new();
    let ghost mut consumed: nat = 0;
    let mut s: usize = 0;
    while s < n
        invariant
            ns == notes@,
            n == notes@.len(),
            total_text(notes@) <= u32::MAX,
            keys@.len() == 2 * notes@.len(),
            forall|e: int| 0 <= e < keys@.len() ==> #[trigger] keys@[e]@ == index_key(notes@, e),
            flags@.len() == n,
            ids@.len() == n,
            forall|t: int| 0 <= t < n ==> #[trigger] flags@[t] == shown(notes@, sh, t),
            forall|t: int| 0 <= t < n ==> #[trigger] ids@[t]@ == note_id(path_of(notes@, t)),
            s <= n,
            in_deg@.len() == n,
            forall|t: int| 0 <= t < n ==> #[trigger] in_deg@[t] == in_degree_upto(notes@, sh, s as int, t),
            forall|t: int| 0 <= t < n ==> #[trigger] in_deg@[t] <= consumed,
            consumed <= total_text(notes@.take(s as int)),
            outs@.len() == s,
            forall|q: int| 0 <= q < s && shown(notes@, sh, q) ==> #[trigger] outs@[q] == note_links(notes@[q]).len(),
            edges@.len() == edges_upto(notes@, sh, s as int).len(),
            forall|j: int| 0 <= j < edges@.len() ==> #[trigger] edge_is(edges@[j], notes@, edges_upto(notes@, sh, s as int)[j]),
        decreases n - s,
    {
        proof {
            lemma_total_step(notes@, s as int);
            lemma_total_prefix(notes@, s + 1);
        }
        if flags[s] {
            let links = links_of(&notes[s]);
            let targets_s = resolved_targets(notes, &keys, &flags, sh, &links);
            let ghost ri = targets_s@.map_values(|x: usize| x as int);
            assert(ri == out_targets(notes@, sh, s as int));
            let mut j: usize = 0;
            while j < targets_s.len()
                invariant
                    n == notes@.len(),
                    in_deg@.len() == n,
                    ri == targets_s@.map_values(|x: usize| x as int),
                    forall|q: int| 0 <= q < targets_s@.len() ==> #[trigger] targets_s@[q] < n,
                    j <= targets_s@.len(),
                    targets_s@.len() <= text_len(notes@[s as int]),
                    consumed + text_len(notes@[s as int]) <= u32::MAX,
                    forall|t: int| 0 <= t < n ==> #[trigger] in_deg@[t] == in_degree_upto(notes@, sh, s as int, t) + count(ri.take(j as int), t),
                    forall|t: int| 0 <= t < n ==> #[trigger] in_deg@[t] <= consumed + j,
                decreases targets_s.len() - j,
            {
                let t = targets_s[j];
                assert(ri.take(j + 1).drop_last() =~= ri.take(j as int));
                assert(ri.take(j + 1).last() == t as int);
                let d = in_deg[t];
                in_deg.set(t, d + 1);
                j += 1;
            }
            assert(ri.take(ri.len() as int) =~= ri);
            let tl = tally(&targets_s);
            let ghost base = edges_upto(notes@, sh, s as int);
            let ghost se = source_edges(notes@, sh, s as int);
            let mut m: usize = 0;
            while m < tl.len()
                invariant
                    n == notes@.len(),
                    ids@.len() == n,
                    forall|t: int| 0 <= t < n ==> #[trigger] ids@[t]@ == note_id(path_of(notes@, t)),
                    s < n,
                    ri == targets_s@.map_values(|x: usize| x as int),
                    ri == out_targets(notes@, sh, s as int),
                    forall|q: int| 0 <= q < targets_s@.len() ==> #[trigger] targets_s@[q] < n,
                    se == source_edges(notes@, sh, s as int),
                    tl@.map_values(|p: (usize, u32)| p.0 as int) == distinct(ri),
                    forall|q: int| 0 <= q < tl@.len() ==> #[trigger] tl@[q].1 == count(ri, tl@[q].0 as int),
                    m <= tl@.len(),
                    edges@.len() == base.len() + m,
                    forall|q: int| 0 <= q < edges@.len() ==> #[trigger] edge_is(edges@[q], notes@, (base + se)[q]),
                decreases tl.len() - m,
            {
                let (x, c) = tl[m];
                assert(distinct(ri)[m as int] == x as int);
                assert(x < n) by {
                    lemma_distinct_members(ri);
                    let w = choose|w: int| 0 <= w < ri.len() && ri[w] == x as int;
                    assert(targets_s@[w] < n);
                }
                assert(se[m as int] == (s as int, x as int, count(ri, x as int)));
                let e = GraphEdge {
                    source_id: string_of(&ids[s]),
                    target_id: string_of(&ids[x]),
                    count: c,
                };
                let ghost prev = edges@;
                edges.push(e);
                assert forall|q: int| 0 <= q < edges@.len() implies #[trigger] edge_is(edges@[q], notes@, (base + se)[q]) by {
                    if q < prev.len() {
                        assert(edges@[q] == prev[q]);
                    }
                }
                m += 1;
            }
            assert(edges_upto(notes@, sh, s + 1) == base + se);
            outs.push(links.len() as u32);
            proof {
                consumed = consumed + targets_s@.len();
            }
        } else {
            outs.push(0);
            assert(edges_upto(notes@, sh, s + 1) =~= edges_upto(notes@, sh, s as int));
        }
        s += 1;
    }
    let mut shown_idx: Vec<usize> = Vec::new();
    let mut skeys: Vec<Vec<char>> = Vec::new();
    let mut q: usize = 0;
    while q < n
        invariant
            n == notes@.len(),
            flags@.len() == n,
            forall|t: int| 0 <= t < n ==> #[trigger] flags@[t] == shown(notes@, sh, t),
            q <= n,
            shown_idx@.map_values(|x: usize| x as int) == shown_upto(notes@, sh, q as int),
            skeys@.len() == shown_idx@.len(),
            forall|k: int| 0 <= k < shown_idx@.len() ==> #[trigger] shown_idx@[k] < q,
            forall|k: int| 0 <= k < skeys@.len() ==> #[trigger] skeys@[k]@ == lower_of(note_title(path_of(notes@, shown_idx@[k] as int))),
        decreases n - q,
    {
        if flags[q] {
            let p = chars_of(notes[q].rel_path.as_str());
            let last = last_segment_chars(&p);
            let title = stem_chars(&last);
            let ts = string_of(&title);
            let key = unicode_lower(ts.as_str());
            let ghost prev = shown_idx@;
            shown_idx.push(q);
            skeys.push(key);
            assert(shown_idx@.map_values(|x: usize| x as int) =~= prev.map_values(|x: usize| x as int).push(q as int));
        }
        q += 1;
    }
    let ghost sn = shown_notes(notes@, sh);
    assert(skeys@.map_values(|k: Vec<char>| k@) =~= node_keys(notes@, sh));
    let ord = sort_order(&skeys);
    let mut nodes: Vec<GraphNode> = Vec::new();
    let mut k: usize = 0;
    while k < ord.len()
        invariant
            n == notes@.len(),
            sn == shown_notes(notes@, sh),
            shown_idx@.map_values(|x: usize| x as int) == sn,
            forall|w: int| 0 <= w < shown_idx@.len() ==> #[trigger] shown_idx@[w] < n,
            sorted_order(node_keys(notes@, sh), ord@),
            node_keys(notes@, sh).len() == shown_idx@.len(),
            in_deg@.len() == n,
            forall|t: int| 0 <= t < n ==> #[trigger] in_deg@[t] == in_degree(notes@, sh, t),
            outs@.len() == n,
            forall|w: int| 0 <= w < n && shown(notes@, sh, w) ==> #[trigger] outs@[w] == note_links(notes@[w]).len(),
            k <= ord@.len(),
            nodes@.len() == k,
            forall|w: int| 0 <= w < k ==> #[trigger] node_is(nodes@[w], notes@, sh, sn[ord@[w] as int]),
        decreases ord.len() - k,
    {
        let si = shown_idx[ord[k]];
        assert(sn[ord@[k as int] as int] == si as int);
        proof {
            lemma_shown_upto_members(notes@, sh, n as int);
        }
        assert(shown(notes@, sh, si as int));
        let node = make_node(notes, si, in_deg[si], outs[si]);
        nodes.push(node);
        k += 1;
    }
    let g = GraphData { nodes, edges };
    assert(is_graph_of(notes@, sh, g));
    g
}

/// Every element of the distinct elements of `r` occurs in `r`.
proof fn lemma_distinct_members(r: Seq<int>)
    ensures
        forall|i: int| 0 <= i < distinct(r).len() ==> r.contains(#[trigger] distinct(r)[i]),
    decreases r.len(),
{
    if r.len() > 0 {
        lemma_distinct_members(r.drop_last());
        let prev = distinct(r.drop_last());
        assert forall|i: int| 0 <= i < distinct(r).len() implies r.contains(#[trigger] distinct(r)[i]) by {
            if i < prev.len() {
                assert(distinct(r)[i] == prev[i]);
                let w = choose|w: int| 0 <= w < r.drop_last().len() && r.drop_last()[w] == prev[i];
                assert(r[w] == prev[i]);
            } else {
                assert(r[r.len() - 1] == distinct(r)[i]);
            }
        }
    }
}

/// The listed shown notes are shown notes of the vault.
proof fn lemma_shown_upto_members(notes: Seq<ScannedNote>, show_hidden: bool, k: int)
    requires
        0 <= k <= notes.len(),
    ensures
        forall|w: int|
            0 <= w < shown_upto(notes, show_hidden, k).len() ==> 0 <= #[trigger] shown_upto(notes, show_hidden, k)[w] < k
                && shown(notes, show_hidden, shown_upto(notes, show_hidden, k)[w]),
    decreases k,
{
    if k > 0 {
        lemma_shown_upto_members(notes, show_hidden, k - 1);
        let prev = shown_upto(notes, show_hidden, k - 1);
        assert forall|w: int| 0 <= w < shown_upto(notes, show_hidden, k).len() implies 0
            <= #[trigger] shown_upto(notes, show_hidden, k)[w] < k && shown(
            notes,
            show_hidden,
            shown_upto(notes, show_hidden, k)[w],
        ) by {
            if w < prev.len() {
                assert(shown_upto(notes, show_hidden, k)[w] == prev[w]);
            }
        }
    }
}

proof fn lemma_resolve_in_range(notes: Seq<ScannedNote>, key: Seq<char>, e: int)
    requires
        e >= 0,
    ensures
        match resolve_from(notes, key, e) {
            Some(t) => 0 <= t < notes.len(),
            None => true,
        },
    decreases 2 * notes.len() - e,
{
    if e < 2 * notes.len() && index_key(notes, e) != key {
        lemma_resolve_in_range(notes, key, e + 1);
    }
}

proof fn lemma_targets_shown(notes: Seq<ScannedNote>, show_hidden: bool, keys: Seq<Seq<char>>)
    ensures
        forall|i: int|
            0 <= i < targets(notes, show_hidden, keys).len() ==> 0 <= #[trigger] targets(
                notes,
                show_hidden,
                keys,
            )[i] < notes.len() && shown(notes, show_hidden, targets(notes, show_hidden, keys)[i]),
    decreases keys.len(),
{
    if keys.len() > 0 {
        lemma_targets_shown(notes, show_hidden, keys.drop_last());
        lemma_resolve_in_range(notes, keys.last(), 0);
        let prev = targets(notes, show_hidden, keys.drop_last());
        assert forall|i: int| 0 <= i < targets(notes, show_hidden, keys).len() implies 0
            <= #[trigger] targets(notes, show_hidden, keys)[i] < notes.len() && shown(
            notes,
            show_hidden,
            targets(notes, show_hidden, keys)[i],
        ) by {
            if i < prev.len() {
                assert(targets(notes, show_hidden, keys)[i] == prev[i]);
            }
        }
    }
}

proof fn lemma_edges_between_shown(notes: Seq<ScannedNote>, show_hidden: bool, k: int)
    requires
        0 <= k <= notes.len(),
    ensures
        forall|j: int|
            0 <= j < edges_upto(notes, show_hidden, k).len() ==> {
                let x = #[trigger] edges_upto(notes, show_hidden, k)[j];
                &&& 0 <= x.0 < notes.len() && shown(notes, show_hidden, x.0)
                &&& 0 <= x.1 < notes.len() && shown(notes, show_hidden, x.1)
            },
    decreases k,
{
    if k > 0 {
        lemma_edges_between_shown(notes, show_hidden, k - 1);
        let prev = edges_upto(notes, show_hidden, k - 1);
        let r = out_targets(notes, show_hidden, k - 1);
        lemma_targets_shown(notes, show_hidden, note_links(notes[k - 1]));
        lemma_distinct_members(r);
        assert forall|j: int| 0 <= j < edges_upto(notes, show_hidden, k).len() implies {
            let x = #[trigger] edges_upto(notes, show_hidden, k)[j];
            &&& 0 <= x.0 < notes.len() && shown(notes, show_hidden, x.0)
            &&& 0 <= x.1 < notes.len() && shown(notes, show_hidden, x.1)
        } by {
            if j < prev.len() {
                assert(edges_upto(notes, show_hidden, k)[j] == prev[j]);
            } else {
                let m = j - prev.len();
                let se = source_edges(notes, show_hidden, k - 1);
                assert(edges_upto(notes, show_hidden, k)[j] == se[m]);
                assert(se[m].1 == distinct(r)[m]);
                assert(r.contains(distinct(r)[m]));
            }
        }
    }
}

proof fn lemma_shown_listed(notes: Seq<ScannedNote>, show_hidden: bool, k: int, s: int)
    requires
        0 <= s < k <= notes.len(),
        shown(notes, show_hidden, s),
    ensures
        shown_upto(notes, show_hidden, k).contains(s),
    decreases k,
{
    if s < k - 1 {
        lemma_shown_listed(notes, show_hidden, k - 1, s);
        let prev = shown_upto(notes, show_hidden, k - 1);
        let w = choose|w: int| 0 <= w < prev.len() && prev[w] == s;
        assert(shown_upto(notes, show_hidden, k)[w] == s);
    } else {
        let prev = shown_upto(notes, show_hidden, k - 1);
        assert(shown_upto(notes, show_hidden, k)[prev.len() as int] == s);
    }
}

proof fn lemma_note_has_node(notes: Seq<ScannedNote>, show_hidden: bool, g: GraphData, s: int)
    requires
        is_graph_of(notes, show_hidden, g),
        0 <= s < notes.len(),
        shown(notes, show_hidden, s),
    ensures
        exists|k: int| 0 <= k < g.nodes@.len() && #[trigger] g.nodes@[k].id@ == note_id(path_of(notes, s)),
{
    let ord = choose|ord: Seq<usize>|
        {
            &&& sorted_order(node_keys(notes, show_hidden), ord)
            &&& g.nodes@.len() == ord.len()
            &&& forall|k: int|
                0 <= k < ord.len() ==> #[trigger] node_is(
                    g.nodes@[k],
                    notes,
                    show_hidden,
                    shown_notes(notes, show_hidden)[ord[k] as int],
                )
        };
    lemma_shown_listed(notes, show_hidden, notes.len() as int, s);
    let sn = shown_notes(notes, show_hidden);
    let w = choose|w: int| 0 <= w < sn.len() && sn[w] == s;
    assert(node_keys(notes, show_hidden).len() == sn.len());
    assert(lists(ord, w));
    let k = choose|k: int| 0 <= k < ord.len() && ord[k] as int == w;
    assert(node_is(g.nodes@[k], notes, show_hidden, sn[ord[k] as int]));
    assert(g.nodes@[k].id@ == note_id(path_of(notes, s)));
}

/// Some node of `g` has the id `id`.
pub open spec fn has_node_id(g: GraphData, id: Seq<char>) -> bool {
    exists|k: int| 0 <= k < g.nodes@.len() && g.nodes@[k].id@ == id
}

/// In a built graph, the source and the target of every edge are nodes.
pub proof fn lemma_edge_ends_are_nodes(notes: Seq<ScannedNote>, show_hidden: bool, g: GraphData)
    requires
        is_graph_of(notes, show_hidden, g),
    ensures
        forall|j: int|
            0 <= j < g.edges@.len() ==> has_node_id(g, (#[trigger] g.edges@[j]).source_id@)
                && has_node_id(g, g.edges@[j].target_id@),
{
    let n = notes.len() as int;
    lemma_edges_between_shown(notes, show_hidden, n);
    assert forall|j: int| 0 <= j < g.edges@.len() implies has_node_id(
        g,
        (#[trigger] g.edges@[j]).source_id@,
    ) && has_node_id(g, g.edges@[j].target_id@) by {
        let x = graph_edges(notes, show_hidden)[j];
        assert(edge_is(g.edges@[j], notes, x));
        lemma_note_has_node(notes, show_hidden, g, x.0);
        lemma_note_has_node(notes, show_hidden, g, x.1);
        let k1 = choose|k: int|
            0 <= k < g.nodes@.len() && #[trigger] g.nodes@[k].id@ == note_id(path_of(notes, x.0));
        let k2 = choose|k: int|
            0 <= k < g.nodes@.len() && #[trigger] g.nodes@[k].id@ == note_id(path_of(notes, x.1));
        assert(g.nodes@[k1].id@ == g.edges@[j].source_id@);
        assert(g.nodes@[k2].id@ == g.edges@[j].target_id@);
    }
}

} // verus!
