use coderlm::content::{chunk_indices, grep_with_scope, peek, GrepScope, GrepSource};
use coderlm::file_entry::{FileEntry, Language};
use coderlm::file_tree::FileTree;
use coderlm::structure::{define_file, get_structure, mark_file, redefine_file};
use coderlm::walker::{scan_directory, should_skip, ScanItem};

fn tree_with(paths: &[&str]) -> FileTree {
    let mut t = FileTree::new();
    for p in paths {
        t.insert(FileEntry::new(p.to_string(), 10, 1));
    }
    t
}

#[test]
fn tree_insert_get_remove() {
    let mut t = tree_with(&["a.rs", "d/b.py"]);
    assert_eq!(t.len(), 2);
    assert_eq!(t.get("a.rs").unwrap().language, Language::Rust);
    assert!(t.get("x").is_none());
    assert!(t.remove("a.rs").is_some());
    assert!(t.remove("a.rs").is_none());
    assert_eq!(t.len(), 1);
    assert_eq!(t.all_paths(), vec!["d/b.py".to_string()]);
}

#[test]
fn breakdown_counts_and_orders() {
    let t = tree_with(&["a.rs", "b.rs", "c.py"]);
    let b = t.language_breakdown();
    assert_eq!(b.len(), 2);
    assert_eq!(b[0].language, Language::Rust);
    assert_eq!(b[0].count, 2);
    assert_eq!(b[1].count, 1);
}

#[test]
fn structure_lists_every_path_once_at_depth_zero() {
    let t = tree_with(&["src/a.rs", "src/sub/b.rs", "top.md"]);
    let rows = t.structure_rows(0);
    let file_rows = rows.iter().filter(|r| !r.ends_with('/')).count();
    assert_eq!(file_rows, 3);
    let resp = get_structure(&t, 0);
    assert_eq!(resp.file_count, 3);
    assert!(resp.tree.contains("└── ") || resp.tree.contains("├── "));
    assert!(resp.tree.contains("a.rs"));
    assert!(resp.tree.contains("sub/"));
}

#[test]
fn structure_depth_limits_levels() {
    let t = tree_with(&["src/deep/x.rs", "src/y.rs"]);
    let shallow = t.render_tree(1);
    assert!(shallow.contains("src/"));
    assert!(!shallow.contains("x.rs"));
}

#[test]
fn define_mark_redefine_file() {
    let mut t = tree_with(&["a.rs"]);
    assert!(define_file(&mut t, "a.rs", "main file").is_ok());
    assert!(define_file(&mut t, "a.rs", "again").is_err());
    assert!(redefine_file(&mut t, "a.rs", "second").is_ok());
    assert_eq!(t.get("a.rs").unwrap().definition.as_deref(), Some("second"));
    assert!(mark_file(&mut t, "a.rs", "test").is_ok());
    assert!(mark_file(&mut t, "a.rs", "test").is_ok());
    assert_eq!(t.get("a.rs").unwrap().marks.len(), 1);
    assert!(mark_file(&mut t, "a.rs", "bogus").is_err());
    assert!(mark_file(&mut t, "missing.rs", "test").is_err());
    assert!(define_file(&mut t, "missing.rs", "x").is_err());
}

#[test]
fn walker_filters_and_counts() {
    let mut t = FileTree::new();
    let items = vec![
        ScanItem { rel_path: "src/ok.rs".to_string(), size: 5, modified: 1 },
        ScanItem { rel_path: "node_modules/x.js".to_string(), size: 5, modified: 1 },
        ScanItem { rel_path: "logo.png".to_string(), size: 5, modified: 1 },
        ScanItem { rel_path: "big.rs".to_string(), size: 1000, modified: 1 },
    ];
    let count = scan_directory(&mut t, items, 100);
    assert_eq!(count, 1);
    assert_eq!(t.len(), 1);
    assert!(t.get("src/ok.rs").is_some());
    assert!(should_skip("vendor/a/b.c"));
    assert!(!should_skip("src/a.rs"));
}

#[test]
fn peek_clamps_and_numbers() {
    let t = tree_with(&["f.txt"]);
    let src = "alpha\nbeta\ngamma\n";
    let p = peek(&t, "f.txt", src, 0, 2).unwrap();
    assert_eq!(p.total_lines, 3);
    assert_eq!(p.start_line, 1);
    assert_eq!(p.end_line, 2);
    assert!(p.content.contains("1 │ alpha"));
    assert!(p.content.contains("2 │ beta"));
    assert!(!p.content.contains("gamma"));
    // out-of-range window is clamped, never an error
    let q = peek(&t, "f.txt", src, 10, 20).unwrap();
    assert_eq!(q.start_line, 4);
    assert_eq!(q.content, "");
    assert!(peek(&t, "missing", src, 0, 1).is_err());
}

#[test]
fn peek_window_shows_signature() {
    let t = tree_with(&["x.rs"]);
    let src = "fn foo() {\n    1\n}\n";
    // a symbol spanning lines 1..=3 peeks as [0, 3)
    let p = peek(&t, "x.rs", src, 0, 3).unwrap();
    assert!(p.content.contains("fn foo() {"));
}

#[test]
fn chunks_cover_with_step() {
    let t = tree_with(&["f.txt"]);
    let src = "0123456789";
    let r = chunk_indices(&t, "f.txt", src, 4, 1).unwrap();
    assert_eq!(r.total_bytes, 10);
    let c: Vec<(usize, usize, usize)> =
        r.chunks.iter().map(|c| (c.index, c.start, c.end)).collect();
    assert_eq!(c, vec![(0, 0, 4), (1, 3, 7), (2, 6, 10)]);
    assert_eq!(r.chunks.last().unwrap().end, 10);
    // rejections
    assert!(chunk_indices(&t, "f.txt", src, 0, 0).is_err());
    assert!(chunk_indices(&t, "f.txt", src, 4, 4).is_err());
    assert!(chunk_indices(&t, "missing", src, 4, 1).is_err());
    // empty file has no chunks
    let e = chunk_indices(&t, "f.txt", "", 4, 1).unwrap();
    assert!(e.chunks.is_empty());
}

#[test]
fn grep_all_counts_and_contexts() {
    let sources = vec![GrepSource {
        path: "a.txt".to_string(),
        language: Language::Other,
        text: "one\ntwo match\nthree\nfour match\n".to_string(),
    }];
    let r = grep_with_scope(&sources, "match", 10, 1, GrepScope::All).unwrap();
    assert_eq!(r.total_matches, 2);
    assert!(!r.truncated);
    assert_eq!(r.matches.len(), 2);
    assert_eq!(r.matches[0].line, 2);
    assert_eq!(r.matches[0].text, "two match");
    assert_eq!(r.matches[0].context_before, vec!["one"]);
    assert_eq!(r.matches[0].context_after, vec!["three"]);
    let capped = grep_with_scope(&sources, "match", 1, 0, GrepScope::All).unwrap();
    assert_eq!(capped.matches.len(), 1);
    assert_eq!(capped.total_matches, 2);
    assert!(capped.truncated);
    assert!(grep_with_scope(&sources, "(unclosed", 10, 0, GrepScope::All).is_err());
}

#[test]
fn code_scope_skips_strings_and_comments() {
    let src = "let s = \"TODO\"; // TODO real\n";
    let sources = vec![GrepSource {
        path: "m.rs".to_string(),
        language: Language::Rust,
        text: src.to_string(),
    }];
    let all = grep_with_scope(&sources, "TODO", 10, 0, GrepScope::All).unwrap();
    // two occurrences on the single line
    assert_eq!(all.total_matches, 2);
    assert_eq!(all.matches.len(), 1);
    assert_eq!(all.matches[0].line, 1);
    let code = grep_with_scope(&sources, "TODO", 10, 0, GrepScope::Code).unwrap();
    assert_eq!(code.total_matches, 0);
    // the code scope returns a subset of the unrestricted scope
    for m in &code.matches {
        assert!(all.matches.iter().any(|a| a.file == m.file && a.line == m.line));
    }
}

#[test]
fn breakdown_counts_sum_to_file_count() {
    let t = tree_with(&["a.rs", "b.rs", "c.py", "d.go", "notes.txt"]);
    let resp = get_structure(&t, 0);
    assert_eq!(resp.file_count, 5);
    let total: usize = resp.language_breakdown.iter().map(|c| c.count).sum();
    assert_eq!(total, 5);
}

#[test]
fn mark_file_appends_once_and_touches_nothing_else() {
    let mut t = tree_with(&["a.rs", "b.rs"]);
    define_file(&mut t, "a.rs", "kept").unwrap();
    mark_file(&mut t, "a.rs", "test").unwrap();
    mark_file(&mut t, "a.rs", "test").unwrap();
    let e = t.get("a.rs").unwrap();
    assert_eq!(e.marks.len(), 1);
    assert_eq!(e.definition.as_deref(), Some("kept"));
    assert_eq!(e.size, 10);
    // the untouched sibling is exactly as inserted
    let b = t.get("b.rs").unwrap();
    assert!(b.marks.is_empty());
    assert!(b.definition.is_none());
}
