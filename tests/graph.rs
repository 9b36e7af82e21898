use vault_graph::backlinks::{find_backlinks_impl, sort_scanned_notes, ScannedNote};
use vault_graph::graph::{build_graph_impl, GraphData, GraphOptions};
use vault_graph::vault::{list_markdown_files_impl, note_entry, NoteEntry};

fn note(path: &str, text: Option<&str>) -> ScannedNote {
    ScannedNote {
        rel_path: path.to_string(),
        text: text.map(|t| t.to_string()),
        created_at: None,
        modified_at: Some(7),
    }
}

fn edge_list(g: &GraphData) -> Vec<(String, String, u32)> {
    let mut v: Vec<(String, String, u32)> = g
        .edges
        .iter()
        .map(|e| (e.source_id.clone(), e.target_id.clone(), e.count))
        .collect();
    v.sort();
    v
}

#[test]
fn two_note_graph() {
    let notes = vec![note("b.md", Some("")), note("a.md", Some("[[b]]"))];
    let g = build_graph_impl(&notes, GraphOptions { show_hidden: false });
    let ids: Vec<&str> = g.nodes.iter().map(|n| n.id.as_str()).collect();
    assert_eq!(ids, vec!["a", "b"]);
    assert_eq!((g.nodes[0].degree_out, g.nodes[0].degree_in), (1, 0));
    assert_eq!((g.nodes[1].degree_out, g.nodes[1].degree_in), (0, 1));
    assert_eq!(g.nodes[0].title, "a");
    assert_eq!(g.nodes[0].rel_path, "a.md");
    assert_eq!(g.nodes[0].modified_at, Some(7));
    assert_eq!(edge_list(&g), vec![("a".to_string(), "b".to_string(), 1)]);
}

#[test]
fn backlinks_of_two_note_vault() {
    let notes = vec![note("b.md", Some("")), note("a.md", Some("[[b]]"))];
    assert_eq!(find_backlinks_impl("B", &notes), vec!["a.md".to_string()]);
    assert!(find_backlinks_impl("a", &notes).is_empty());
    assert!(find_backlinks_impl("  ", &notes).is_empty());
}

#[test]
fn unresolved_link_counts_out_only() {
    let notes = vec![note("a.md", Some("[[missing]] [[b]]")), note("b.md", Some("text"))];
    let g = build_graph_impl(&notes, GraphOptions { show_hidden: false });
    assert_eq!(g.nodes[0].degree_out, 2);
    assert_eq!(g.nodes[0].degree_in, 0);
    assert_eq!(g.nodes[1].degree_in, 1);
    assert_eq!(g.nodes[1].degree_out, 0);
    assert_eq!(edge_list(&g), vec![("a".to_string(), "b".to_string(), 1)]);

    let only_missing = vec![note("a.md", Some("[[missing]]")), note("b.md", Some(""))];
    let g = build_graph_impl(&only_missing, GraphOptions { show_hidden: false });
    assert_eq!(g.nodes[0].degree_out, 1);
    assert_eq!(g.nodes[1].degree_in, 0);
    assert!(g.edges.is_empty());
}

#[test]
fn hidden_notes_follow_option() {
    let notes = vec![
        note(".trash/old.md", Some("[[b]]")),
        note("b.md", Some("[[old]]")),
    ];
    let g = build_graph_impl(&notes, GraphOptions { show_hidden: false });
    assert_eq!(g.nodes.len(), 1);
    assert_eq!(g.nodes[0].id, "b");
    assert_eq!(g.nodes[0].degree_in, 0);
    assert_eq!(g.nodes[0].degree_out, 1);
    assert!(g.edges.is_empty());

    let g = build_graph_impl(&notes, GraphOptions { show_hidden: true });
    assert_eq!(g.nodes.len(), 2);
    assert!(g.nodes.iter().any(|n| n.is_hidden && n.id == ".trash/old"));
    assert_eq!(
        edge_list(&g),
        vec![
            (".trash/old".to_string(), "b".to_string(), 1),
            ("b".to_string(), ".trash/old".to_string(), 1),
        ]
    );
    assert_eq!(find_backlinks_impl("b", &notes), vec![".trash/old.md".to_string()]);
}

#[test]
fn stem_collision_first_note_wins() {
    let notes = vec![
        note("one/x.md", Some("")),
        note("two/x.md", Some("")),
        note("a.md", Some("[[x]] [[two/x]]")),
    ];
    let g = build_graph_impl(&notes, GraphOptions { show_hidden: false });
    assert_eq!(
        edge_list(&g),
        vec![
            ("a".to_string(), "one/x".to_string(), 1),
            ("a".to_string(), "two/x".to_string(), 1),
        ]
    );
}

#[test]
fn two_keys_for_one_target_count_twice() {
    let notes = vec![note("dir/B.md", Some("")), note("a.md", Some("[[b]] [[Dir/B.md]] [[b|again]]"))];
    let g = build_graph_impl(&notes, GraphOptions { show_hidden: false });
    assert_eq!(edge_list(&g), vec![("a".to_string(), "dir/b".to_string(), 2)]);
    let b = g.nodes.iter().find(|n| n.id == "dir/b").unwrap();
    assert_eq!(b.degree_in, 2);
    assert_eq!(b.title, "B");
    let a = g.nodes.iter().find(|n| n.id == "a").unwrap();
    assert_eq!(a.degree_out, 2);
}

#[test]
fn unreadable_note_has_no_links() {
    let notes = vec![note("a.md", None), note("b.md", Some("[[a]]"))];
    let g = build_graph_impl(&notes, GraphOptions { show_hidden: false });
    assert_eq!(g.nodes[0].degree_out, 0);
    assert_eq!(g.nodes[0].degree_in, 1);
    assert_eq!(find_backlinks_impl("b", &notes), Vec::<String>::new());
    assert_eq!(find_backlinks_impl("a.MD", &notes), vec!["b.md".to_string()]);
}

#[test]
fn nodes_sorted_by_lowercased_title() {
    let notes = vec![
        note("gamma.md", Some("")),
        note("x/Beta.markdown", Some("")),
        note("alpha.md", Some("")),
        note("Éclair.md", Some("")),
        note("éa.md", Some("")),
    ];
    let g = build_graph_impl(&notes, GraphOptions { show_hidden: false });
    let titles: Vec<&str> = g.nodes.iter().map(|n| n.title.as_str()).collect();
    assert_eq!(titles, vec!["alpha", "Beta", "gamma", "éa", "Éclair"]);
    assert_eq!(g.nodes[1].id, "x/beta");
}

#[test]
fn extension_is_stripped_in_any_case() {
    let notes = vec![note("Note.MD", Some("")), note("a.md", Some("[[note.md]]"))];
    let g = build_graph_impl(&notes, GraphOptions { show_hidden: false });
    let ids: Vec<&str> = g.nodes.iter().map(|n| n.id.as_str()).collect();
    assert_eq!(ids, vec!["a", "note"]);
    assert_eq!(edge_list(&g), vec![("a".to_string(), "note".to_string(), 1)]);

    let notes = vec![note("Dir/A.MD", Some("")), note("b.md", Some("[[a]] [[dir/a]]"))];
    let g = build_graph_impl(&notes, GraphOptions { show_hidden: false });
    assert_eq!(g.nodes[0].id, "dir/a");
    assert_eq!(edge_list(&g), vec![("b".to_string(), "dir/a".to_string(), 2)]);
}

#[test]
fn only_one_extension_is_stripped() {
    let notes = vec![note("missing.md.md", Some("")), note("a.md", Some("[[missing]]"))];
    let g = build_graph_impl(&notes, GraphOptions { show_hidden: false });
    let ids: Vec<&str> = g.nodes.iter().map(|n| n.id.as_str()).collect();
    assert_eq!(ids, vec!["a", "missing.md"]);
    assert!(g.edges.is_empty());
    assert_eq!(g.nodes[0].degree_out, 1);
    assert_eq!(g.nodes[1].degree_in, 0);
}

#[test]
fn backlinks_sorted_and_include_all() {
    let notes = vec![
        note("z.md", Some("[[target]]")),
        note("B/c.md", Some("[[Target|t]]")),
        note("a.md", Some("[[other]]")),
        note("A.md", Some("[[target.md]]")),
        note("target.md", Some("")),
    ];
    assert_eq!(
        find_backlinks_impl("Target", &notes),
        vec!["A.md".to_string(), "B/c.md".to_string(), "z.md".to_string()]
    );
}

#[test]
fn empty_vault_graph() {
    let g = build_graph_impl(&Vec::new(), GraphOptions { show_hidden: true });
    assert!(g.nodes.is_empty());
    assert!(g.edges.is_empty());
}

#[test]
fn listing_sorted_by_display_name() {
    let entries = vec![note_entry("b/Zeta.md"), note_entry("alpha.markdown"), note_entry("Mid.md")];
    let names: Vec<String> = entries.iter().map(|e| e.display_name.clone()).collect();
    assert_eq!(names, vec!["Zeta", "alpha", "Mid"]);
    let listed: Vec<NoteEntry> = list_markdown_files_impl(&entries);
    let paths: Vec<&str> = listed.iter().map(|e| e.rel_path.as_str()).collect();
    assert_eq!(paths, vec!["alpha.markdown", "Mid.md", "b/Zeta.md"]);
}

#[test]
fn scanned_notes_sorted_by_path() {
    let notes = vec![
        note("two/x.md", Some("second")),
        note("a.md", Some("[[x]]")),
        note("one/x.md", None),
    ];
    let sorted = sort_scanned_notes(&notes);
    let paths: Vec<&str> = sorted.iter().map(|n| n.rel_path.as_str()).collect();
    assert_eq!(paths, vec!["a.md", "one/x.md", "two/x.md"]);
    assert_eq!(sorted[2].text.as_deref(), Some("second"));
    assert_eq!(sorted[1].text, None);
    assert_eq!(sorted[0].modified_at, Some(7));
    let g = build_graph_impl(&sorted, GraphOptions { show_hidden: false });
    assert_eq!(edge_list(&g), vec![("a".to_string(), "one/x".to_string(), 1)]);
}

#[test]
fn every_edge_joins_two_nodes() {
    let notes = vec![
        note("a.md", Some("[[b]] [[c]] [[nowhere]]")),
        note("sub/b.md", Some("[[a]] [[sub/c]]")),
        note("sub/c.md", Some("[[.secret/d]]")),
        note(".secret/d.md", Some("[[a]]")),
    ];
    for show_hidden in [false, true] {
        let g = build_graph_impl(&notes, GraphOptions { show_hidden });
        assert!(!g.edges.is_empty());
        for e in &g.edges {
            assert!(g.nodes.iter().any(|n| n.id == e.source_id));
            assert!(g.nodes.iter().any(|n| n.id == e.target_id));
        }
    }
}
