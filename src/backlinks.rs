//! Which notes link to a given note.
use vstd::prelude::*;
use crate::order::{sort_order, sorted_order, sorted_seq, sorted_strings};
use crate::vault::copy_string;
use crate::text::chars_of;
use crate::wikilink::{contains_key, extract, extract_chars, normalize, normalize_chars, views};

verus! {

/// A note found by scanning the vault, with what could be read of it.
pub struct ScannedNote {
    /// Path relative to the vault root, segments joined by `/`.
    pub rel_path: String,
    /// The note's text; `None` when it could not be read.
    pub text: Option<String>,
    /// Creation time in milliseconds since the epoch, where known.
    pub created_at: Option<u64>,
    /// Modification time in milliseconds since the epoch, where known.
    pub modified_at: Option<u64>,
}

/// The link keys of a note; a note that could not be read has none.
pub open spec fn note_links(n: ScannedNote) -> Seq<Seq<char>> {
    match n.text {
        Some(t) => extract(t@),
        None => seq![],
    }
}

/// The paths, in input order, of the notes with a link whose key is `key`.
pub open spec fn linking_paths(key: Seq<char>, notes: Seq<ScannedNote>) -> Seq<Seq<char>>
    decreases notes.len(),
{
    if notes.len() == 0 {
        seq![]
    } else {
        let prev = linking_paths(key, notes.drop_last());
        if note_links(notes.last()).contains(key) {
            prev.push(notes.last().rel_path@)
        } else {
            prev
        }
    }
}

/// The link keys of one scanned note.
pub(crate) fn links_of(n: &ScannedNote) -> (r: Vec<Vec<char>>)
    ensures
        views(r@) == note_links(*n),
        match n.text {
            Some(t) => r@.len() <= t@.len(),
            None => r@.len() == 0,
        },
{
    match &n.text {
        Some(t) => {
            let v = chars_of(t.as_str());
            extract_chars(&v)
        },
        None => {
            let r: Vec<Vec<char>> = Vec::new();
            assert(views(r@) =~= Seq::<Seq<char>>::empty());
            r
        },
    }
}

/// The notes that link to `target_title`, as sorted relative paths. The title
/// is normalized like a link target; an empty key finds nothing. Notes that
/// could not be read are skipped, hidden notes are not.
pub fn find_backlinks_impl(target_title: &str, notes: &Vec<ScannedNote>) -> (r: Vec<String>)
    ensures
        normalize(target_title@).len() == 0 ==> r@.len() == 0,
        normalize(target_title@).len() > 0 ==> sorted_seq(
            linking_paths(normalize(target_title@), notes@),
            r@.map_values(|s: String| s@),
        ),
{
    let tv = chars_of(target_title);
    let key = normalize_chars(&tv);
    if key.len() == 0 {
        return Vec::new();
    }
    let mut hits: Vec<Vec<char>> = Vec::new();
    let mut i: usize = 0;
    while i < notes.len()
        invariant
            i <= notes@.len(),
            views(hits@) == linking_paths(key@, notes@.subrange(0, i as int)),
        decreases notes.len() - i,
    {
        let links = links_of(&notes[i]);
        assert(notes@.subrange(0, i + 1).drop_last() =~= notes@.subrange(0, i as int));
        if contains_key(&links, &key) {
            let p = chars_of(notes[i].rel_path.as_str());
            let ghost prev = hits@;
            hits.push(p);
            assert(views(hits@) =~= views(prev).push(p@));
        }
        i += 1;
    }
    assert(notes@.subrange(0, notes@.len() as int) =~= notes@);
    sorted_strings(&hits)
}

/// The paths of the notes, in order.
pub open spec fn note_paths(notes: Seq<ScannedNote>) -> Seq<Seq<char>> {
    notes.map_values(|n: ScannedNote| n.rel_path@)
}

/// `a` holds the same data as `b`.
pub open spec fn same_note(a: ScannedNote, b: ScannedNote) -> bool {
    &&& a.rel_path@ == b.rel_path@
    &&& match (a.text, b.text) {
        (Some(x), Some(y)) => x@ == y@,
        (None, None) => true,
        _ => false,
    }
    &&& a.created_at == b.created_at
    &&& a.modified_at == b.modified_at
}

/// The notes sorted by relative path, so that wherever two notes share a
/// name, the one with the smaller path is found first, whatever order the
/// directories were read in.
pub fn sort_scanned_notes(notes: &Vec<ScannedNote>) -> (r: Vec<ScannedNote>)
    ensures
        exists|ord: Seq<usize>|
            {
                &&& sorted_order(note_paths(notes@), ord)
                &&& r@.len() == ord.len()
                &&& forall|k: int|
                    0 <= k < ord.len() ==> same_note(#[trigger] r@[k], notes@[ord[k] as int])
            },
{
    let mut keys: Vec<Vec<char>> = Vec::new();
    let mut i: usize = 0;
    while i < notes.len()
        invariant
            i <= notes@.len(),
            keys@.len() == i,
            forall|q: int| 0 <= q < i ==> #[trigger] keys@[q]@ == notes@[q].rel_path@,
        decreases notes.len() - i,
    {
        keys.push(chars_of(notes[i].rel_path.as_str()));
        i += 1;
    }
    assert(keys@.map_values(|k: Vec<char>| k@) =~= note_paths(notes@));
    let ord = sort_order(&keys);
    let mut r: Vec<ScannedNote> = Vec::new();
    let mut k: usize = 0;
    while k < ord.len()
        invariant
            sorted_order(note_paths(notes@), ord@),
            note_paths(notes@).len() == notes@.len(),
            k <= ord@.len(),
            r@.len() == k,
            forall|w: int| 0 <= w < k ==> same_note(#[trigger] r@[w], notes@[ord@[w] as int]),
        decreases ord.len() - k,
    {
        let n = &notes[ord[k]];
        let text = match &n.text {
            Some(t) => Some(copy_string(t)),
            None => None,
        };
        r.push(
            ScannedNote {
                rel_path: copy_string(&n.rel_path),
                text,
                created_at: n.created_at,
                modified_at: n.modified_at,
            },
        );
        k += 1;
    }
    r
}

} // verus!
