use vault_graph::wikilink::{extract_wikilinks, normalize_wikilink_target};

#[test]
fn normalize_wikilinks() {
    assert_eq!(normalize_wikilink_target("  Note Name  "), "note name");
    assert_eq!(normalize_wikilink_target(" Note | Alias "), "note");
    assert_eq!(normalize_wikilink_target("Foo.md"), "foo");
    assert_eq!(normalize_wikilink_target("Foo.MD"), "foo");
    assert_eq!(normalize_wikilink_target(""), "");
}

#[test]
fn backlinks_extract_links() {
    let links = extract_wikilinks("[[Foo]] [[ foo ]] [[FOO|bar]]");
    assert_eq!(links, vec!["foo".to_string()]);
}

#[test]
fn normalize_targets() {
    assert_eq!(normalize_wikilink_target("  Note Name  "), "note name");
    assert_eq!(normalize_wikilink_target(" Note | Alias "), "note");
    assert_eq!(normalize_wikilink_target("Foo.md"), "foo");
    assert_eq!(normalize_wikilink_target("Foo.MD"), "foo");
    assert_eq!(normalize_wikilink_target(""), "");
    assert_eq!(normalize_wikilink_target("folder/Note"), "folder/note");
}

#[test]
fn graph_extract_links() {
    let links = extract_wikilinks("[[Foo]] [[ foo ]] [[FOO|bar]]");
    assert_eq!(links, vec!["foo".to_string()]);

    let links2 = extract_wikilinks("See [[Note A]] and [[Note B]].");
    assert_eq!(links2, vec!["note a".to_string(), "note b".to_string()]);
}

#[test]
fn normalize_alias_without_spaces() {
    assert_eq!(normalize_wikilink_target("Note | Alias"), "note");
    assert_eq!(normalize_wikilink_target("|alias only"), "");
    assert_eq!(normalize_wikilink_target("   "), "");
}

#[test]
fn normalize_keeps_markdown_extension() {
    assert_eq!(normalize_wikilink_target("Note.markdown"), "note.markdown");
    assert_eq!(normalize_wikilink_target("a.md.md"), "a.md");
}

#[test]
fn normalize_trims_unicode_whitespace_and_folds_ascii_only() {
    assert_eq!(normalize_wikilink_target("\t\u{3000}Ärger Note\u{00A0}"), "Ärger note");
}

#[test]
fn normalize_twice_is_stable() {
    for raw in ["  Note Name  ", "Foo.MD", "x|y", "Dir/Sub Note", ""] {
        let once = normalize_wikilink_target(raw);
        assert_eq!(normalize_wikilink_target(&once), once);
    }
}

#[test]
fn normalize_twice_changes_trailing_space_left_by_extension() {
    let once = normalize_wikilink_target("a .md");
    assert_eq!(once, "a ");
    assert_eq!(normalize_wikilink_target(&once), "a");
}

#[test]
fn extract_stops_at_unclosed_link() {
    let links = extract_wikilinks("[[one]] [[two [[three]]");
    assert_eq!(links, vec!["one".to_string(), "two [[three".to_string()]);
    let links = extract_wikilinks("[[one]] [[never closed ]] but [[x");
    assert_eq!(links, vec!["one".to_string(), "never closed".to_string()]);
    let links = extract_wikilinks("[[one]] [[open");
    assert_eq!(links, vec!["one".to_string()]);
}

#[test]
fn extract_skips_empty_targets() {
    let links = extract_wikilinks("[[]] [[ | alias]] [[ok]]");
    assert_eq!(links, vec!["ok".to_string()]);
    assert!(extract_wikilinks("").is_empty());
    assert!(extract_wikilinks("no links here ]] [[").is_empty());
}

#[test]
fn extract_first_closing_bracket_wins() {
    let links = extract_wikilinks("[[a]]]] [[b.md|B]]");
    assert_eq!(links, vec!["a".to_string(), "b".to_string()]);
}
