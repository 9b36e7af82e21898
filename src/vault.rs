//! Listing the notes of a vault.
use vstd::prelude::*;
use crate::order::{sort_order, sorted_order};
use crate::paths::{display_name_for_path, last_segment, last_segment_chars, markdown_name, stem};
use crate::text::{chars_of, lower_of, string_of, unicode_lower};

verus! {

/// A note of a listing.
#[derive(Debug)]
pub struct NoteEntry {
    /// Path relative to the vault root, segments joined by `/`.
    pub rel_path: String,
    /// File name without its markdown extension.
    pub display_name: String,
}

/// An image read from the vault.
#[derive(Debug)]
pub struct VaultImage {
    pub bytes: Vec<u8>,
    /// Media type, by the file's extension.
    pub mime: String,
    /// Modification time in milliseconds since the epoch.
    pub mtime_ms: u64,
}

/// The name shown for the file at `p`.
pub open spec fn display_name_of(p: Seq<char>) -> Seq<char> {
    let name = last_segment(p);
    if markdown_name(name) {
        stem(name)
    } else {
        name
    }
}

/// The sort keys of a listing: lower-cased display names.
pub open spec fn entry_keys(entries: Seq<NoteEntry>) -> Seq<Seq<char>> {
    entries.map_values(|e: NoteEntry| lower_of(e.display_name@))
}

/// The listing entry of the note at `rel_path`.
pub fn note_entry(rel_path: &str) -> (r: NoteEntry)
    ensures
        r.rel_path@ == rel_path@,
        r.display_name@ == display_name_of(rel_path@),
{
    let p = chars_of(rel_path);
    let name = last_segment_chars(&p);
    let name_str = string_of(&name);
    NoteEntry { rel_path: string_of(&p), display_name: display_name_for_path(name_str.as_str()) }
}

pub(crate) fn copy_string(s: &String) -> (r: String)
    ensures
        r@ == s@,
{
    let v = chars_of(s.as_str());
    string_of(&v)
}

/// A vault's listing: the entries sorted by lower-cased display name, ties in
/// scan order.
pub fn list_markdown_files_impl(entries: &Vec<NoteEntry>) -> (r: Vec<NoteEntry>)
    ensures
        exists|ord: Seq<usize>|
            {
                &&& sorted_order(entry_keys(entries@), ord)
                &&& r@.len() == ord.len()
                &&& forall|k: int|
                    0 <= k < ord.len() ==> (#[trigger] r@[k]).rel_path@ == entries@[ord[k] as int].rel_path@
                        && r@[k].display_name@ == entries@[ord[k] as int].display_name@
            },
{
    let mut keys: Vec<Vec<char>> = Vec::new();
    let mut i: usize = 0;
    while i < entries.len()
        invariant
            i <= entries@.len(),
            keys@.len() == i,
            forall|q: int| 0 <= q < i ==> #[trigger] keys@[q]@ == lower_of(entries@[q].display_name@),
        decreases entries.len() - i,
    {
        keys.push(unicode_lower(entries[i].display_name.as_str()));
        i += 1;
    }
    assert(keys@.map_values(|k: Vec<char>| k@) =~= entry_keys(entries@));
    let ord = sort_order(&keys);
    let mut r: Vec<NoteEntry> = Vec::new();
    let mut k: usize = 0;
    while k < ord.len()
        invariant
            sorted_order(entry_keys(entries@), ord@),
            entry_keys(entries@).len() == entries@.len(),
            k <= ord@.len(),
            r@.len() == k,
            forall|w: int|
                0 <= w < k ==> (#[trigger] r@[w]).rel_path@ == entries@[ord@[w] as int].rel_path@
                    && r@[w].display_name@ == entries@[ord@[w] as int].display_name@,
        decreases ord.len() - k,
    {
        let e = &entries[ord[k]];
        r.push(NoteEntry { rel_path: copy_string(&e.rel_path), display_name: copy_string(&e.display_name) });
        k += 1;
    }
    r
}

} // verus!
