use vault_graph::paths::{
    check_resolved_path,
    display_name_for_path, is_hidden_path, is_hidden_segment, is_markdown_file, is_within_root,
    mime_for_path, path_to_rel_string, sanitize_rel_path, PathError,
};

#[test]
fn hidden_paths() {
    assert!(is_hidden_path(".hidden/file.md"));
    assert!(is_hidden_path("folder/.git/config"));
    assert!(is_hidden_path("node_modules/package/file.md"));
    assert!(!is_hidden_path("regular/folder/note.md"));
    assert!(!is_hidden_path("notes/my-note.md"));
}

#[test]
fn hidden_path_cases() {
    assert!(is_hidden_path("node_modules/x/file.md"));
    assert!(is_hidden_path("a/Node_Modules/b.md"));
    assert!(!is_hidden_path("a/node_modules2/b.md"));
    assert!(!is_hidden_path("a//b.md"));
    assert!(!is_hidden_path(""));
    assert!(is_hidden_segment(".obsidian"));
    assert!(is_hidden_segment("NODE_MODULES"));
    assert!(!is_hidden_segment("notes"));
    assert!(!is_hidden_segment(""));
}

#[test]
fn markdown_names() {
    assert!(is_markdown_file("note.md"));
    assert!(is_markdown_file("Note.MarkDown"));
    assert!(is_markdown_file("a.b.MD"));
    assert!(!is_markdown_file(".md"));
    assert!(!is_markdown_file("note.txt"));
    assert!(!is_markdown_file("note"));
    assert!(!is_markdown_file("note.md.bak"));
}

#[test]
fn display_names() {
    assert_eq!(display_name_for_path("Daily Note.md"), "Daily Note");
    assert_eq!(display_name_for_path("a.b.markdown"), "a.b");
    assert_eq!(display_name_for_path("image.png"), "image.png");
}

#[test]
fn mime_types() {
    assert_eq!(mime_for_path("pic.PNG"), "image/png");
    assert_eq!(mime_for_path("a.jpeg"), "image/jpeg");
    assert_eq!(mime_for_path("a.jpg"), "image/jpeg");
    assert_eq!(mime_for_path("a.svg"), "image/svg+xml");
    assert_eq!(mime_for_path("a.tif"), "image/tiff");
    assert_eq!(mime_for_path("a.bin"), "application/octet-stream");
    assert_eq!(mime_for_path("noext"), "application/octet-stream");
}

#[test]
fn sandbox_rejects_escapes() {
    assert_eq!(sanitize_rel_path("../outside.md"), Err(PathError::UnsafePath));
    assert_eq!(sanitize_rel_path("/etc/passwd"), Err(PathError::UnsafePath));
    assert_eq!(sanitize_rel_path("a/../../b.md"), Err(PathError::UnsafePath));
    assert_eq!(sanitize_rel_path("a/b/.."), Err(PathError::UnsafePath));
}

#[test]
fn sandbox_cleans_relative_paths() {
    assert_eq!(sanitize_rel_path("./notes//a.md"), Ok("notes/a.md".to_string()));
    assert_eq!(sanitize_rel_path("notes/./sub/b.md/"), Ok("notes/sub/b.md".to_string()));
    assert_eq!(sanitize_rel_path("a..b/..c.md"), Ok("a..b/..c.md".to_string()));
    assert_eq!(sanitize_rel_path(""), Err(PathError::EmptyPath));
    assert_eq!(sanitize_rel_path("./."), Err(PathError::EmptyPath));
}

#[test]
fn root_containment() {
    assert!(is_within_root("/vault", "/vault/a/b.md"));
    assert!(is_within_root("/vault/", "/vault"));
    assert!(!is_within_root("/vault", "/vaulty/a.md"));
    assert!(!is_within_root("/vault", "/other/a.md"));
    assert!(!is_within_root("/vault", "vault/a.md"));
}

#[test]
fn relative_strings() {
    assert_eq!(path_to_rel_string("/vault", "/vault/sub/a.md"), Ok("sub/a.md".to_string()));
    assert_eq!(path_to_rel_string("/vault", "/vault"), Ok(String::new()));
    assert_eq!(path_to_rel_string("/vault", "/elsewhere/a.md"), Err(PathError::UnsafePath));
    assert_eq!(path_to_rel_string("/vault", "/vault/../x.md"), Err(PathError::UnsafePath));
}

#[test]
fn resolved_path_checks() {
    assert_eq!(check_resolved_path("/v", "/v/a/n.md", Some(true), true), Ok(()));
    assert_eq!(check_resolved_path("/v", "/v/a/n.MARKDOWN", None, true), Ok(()));
    assert_eq!(check_resolved_path("/v", "/v/img.png", Some(true), false), Ok(()));
    assert_eq!(check_resolved_path("/v", "/x/n.md", Some(true), true), Err(PathError::UnsafePath));
    assert_eq!(check_resolved_path("/v", "/v/dir.md", Some(false), true), Err(PathError::NotAFile));
    assert_eq!(check_resolved_path("/v", "/v/n.txt", Some(true), true), Err(PathError::NotMarkdown));
    assert_eq!(check_resolved_path("/v", "/v/n.txt", None, true), Err(PathError::NotMarkdown));
}
