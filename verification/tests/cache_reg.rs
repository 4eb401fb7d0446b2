use coderlm::annotations::{load_annotations, save_annotations};
use coderlm::cache::{reconcile, save_index, CACHE_VERSION};
use coderlm::errors::AppError;
use coderlm::file_entry::{FileEntry, FileMark};
use coderlm::file_entry::Language;
use coderlm::file_tree::FileTree;
use coderlm::history::{get_all_history, get_history};
use coderlm::parser::extract_symbols_from_file;
use coderlm::session::Session;
use coderlm::state::AppState;
use coderlm::structure::{define_file, mark_file};
use coderlm::symbol_table::SymbolTable;
use coderlm::symbol_ops::define_symbol;
use coderlm::walker::ScanItem;

fn entry(path: &str, size: u64, modified: i64) -> FileEntry {
    FileEntry::new(path.to_string(), size, modified)
}

#[test]
fn unchanged_walk_reloads_everything() {
    // build a project state
    let mut tree = FileTree::new();
    tree.insert(entry("a.py", 5, 10));
    tree.insert(entry("b.py", 7, 20));
    let mut table = SymbolTable::new();
    for s in extract_symbols_from_file("a.py", Language::Python, "def f():\n    pass\n") {
        table.insert(s);
    }
    define_file(&mut tree, "a.py", "kept").unwrap();
    let cache = save_index(&tree, &table);
    assert_eq!(cache.version, CACHE_VERSION);
    // a fresh walk that matches the snapshot exactly
    let mut fresh = FileTree::new();
    fresh.insert(entry("a.py", 5, 10));
    fresh.insert(entry("b.py", 7, 20));
    let mut tree2 = FileTree::new();
    let mut table2 = SymbolTable::new();
    let stats = reconcile(&mut tree2, &mut table2, &cache, &fresh);
    assert_eq!(stats.cached, 2);
    assert_eq!(stats.changed, 0);
    assert_eq!(stats.new_files, 0);
    assert_eq!(stats.deleted, 0);
    assert!(stats.files_to_extract.is_empty());
    // the loaded tree equals the pre-save tree, annotations included
    assert_eq!(tree2.len(), 2);
    assert_eq!(tree2.get("a.py").unwrap().definition.as_deref(), Some("kept"));
    assert!(table2.get("a.py", "f").is_some());
}

#[test]
fn changed_new_and_deleted_are_classified() {
    let mut tree = FileTree::new();
    tree.insert(entry("a.py", 5, 10));
    tree.insert(entry("b.py", 7, 20));
    let mut table = SymbolTable::new();
    for s in extract_symbols_from_file("a.py", Language::Python, "def fa():\n    pass\n") {
        table.insert(s);
    }
    for s in extract_symbols_from_file("b.py", Language::Python, "def fb():\n    pass\n") {
        table.insert(s);
    }
    let cache = save_index(&tree, &table);
    // while stopped: a.py deleted, c.py added, b.py touched
    let mut fresh = FileTree::new();
    fresh.insert(entry("b.py", 7, 99));
    fresh.insert(entry("c.py", 3, 30));
    let mut tree2 = FileTree::new();
    let mut table2 = SymbolTable::new();
    let stats = reconcile(&mut tree2, &mut table2, &cache, &fresh);
    assert_eq!(stats.cached, 0);
    assert_eq!(stats.changed, 1);
    assert_eq!(stats.new_files, 1);
    assert_eq!(stats.deleted, 1);
    let mut to_extract = stats.files_to_extract.clone();
    to_extract.sort();
    assert_eq!(to_extract, vec!["b.py".to_string(), "c.py".to_string()]);
    // symbols of the deleted and changed files are gone
    assert!(table2.get("a.py", "fa").is_none());
    assert!(table2.get("b.py", "fb").is_none());
}

#[test]
fn annotations_survive_a_save_load_cycle() {
    let mut tree = FileTree::new();
    tree.insert(entry("a.rs", 5, 1));
    tree.insert(entry("b.rs", 5, 1));
    let mut table = SymbolTable::new();
    for s in extract_symbols_from_file("a.rs", Language::Rust, "fn f() {}\n") {
        table.insert(s);
    }
    define_file(&mut tree, "a.rs", "file def").unwrap();
    mark_file(&mut tree, "a.rs", "test").unwrap();
    mark_file(&mut tree, "a.rs", "doc").unwrap();
    define_symbol(&mut table, "f", "a.rs", "sym def").unwrap();
    let data = save_annotations(&tree, &table);
    // a freshly indexed copy of the same project
    let mut tree2 = FileTree::new();
    tree2.insert(entry("a.rs", 5, 1));
    tree2.insert(entry("b.rs", 5, 1));
    let mut table2 = SymbolTable::new();
    for s in extract_symbols_from_file("a.rs", Language::Rust, "fn f() {}\n") {
        table2.insert(s);
    }
    load_annotations(&mut tree2, &mut table2, &data);
    assert_eq!(tree2.get("a.rs").unwrap().definition.as_deref(), Some("file def"));
    let marks = tree2.get("a.rs").unwrap().marks;
    assert!(marks.contains(&FileMark::Test));
    assert!(marks.contains(&FileMark::Documentation));
    assert_eq!(marks.len(), 2);
    assert_eq!(
        table2.get("a.rs", "f").unwrap().definition.as_deref(),
        Some("sym def"),
    );
    assert!(tree2.get("b.rs").unwrap().definition.is_none());
}

#[test]
fn lru_eviction_removes_project_and_sessions() {
    let mut state = AppState::new(2, 1000);
    state.get_or_create_project("/a", 10, vec![], true);
    state.get_or_create_project("/b", 20, vec![], true);
    state.sessions.insert(
        "s-a".to_string(),
        Session::new("s-a".to_string(), "/a".to_string(), 10),
    );
    state.sessions.insert(
        "s-b".to_string(),
        Session::new("s-b".to_string(), "/b".to_string(), 20),
    );
    // touch A so B becomes the least recently used
    state.touch_project("/a", 30);
    state.get_or_create_project("/c", 40, vec![], true);
    assert!(state.projects.get("/a").is_some());
    assert!(state.projects.get("/b").is_none());
    assert!(state.projects.get("/c").is_some());
    // sessions of the evicted project fail with the distinct gone error
    match state.get_project_for_session("s-b") {
        Err(AppError::Gone(_)) => {},
        _ => panic!("expected the gone error"),
    }
    assert!(state.get_project_for_session("s-a").is_ok());
    match state.get_project_for_session("missing") {
        Err(AppError::NotFound(_)) => {},
        _ => panic!("expected the not-found error"),
    }
}

#[test]
fn history_keeps_the_tail() {
    let mut state = AppState::new(2, 1000);
    let mut sess = Session::new("sid".to_string(), "/p".to_string(), 1);
    sess.record("GET", "/one", "r1", 2);
    sess.record("GET", "/two", "r2", 3);
    sess.record("GET", "/three", &"x".repeat(300), 4);
    state.sessions.insert("sid".to_string(), sess);
    let tail = get_history(&state, "sid", 2).unwrap();
    assert_eq!(tail.len(), 2);
    assert_eq!(tail[0].path, "/two");
    assert_eq!(tail[1].path, "/three");
    // long previews are cut with a marker
    assert_eq!(tail[1].response_preview.len(), 203);
    assert!(tail[1].response_preview.ends_with("..."));
    assert!(get_history(&state, "nope", 2).is_err());
    let blocks = get_all_history(&state, 10);
    assert_eq!(blocks.len(), 1);
    assert_eq!(blocks[0].session_id, "sid");
    assert_eq!(blocks[0].entries.len(), 3);
}

#[test]
fn scan_items_feed_projects() {
    let mut state = AppState::new(2, 1000);
    let created = state.get_or_create_project(
        "/p",
        5,
        vec![ScanItem { rel_path: "m.rs".to_string(), size: 3, modified: 1 }],
        false,
    );
    assert!(created);
    let again = state.get_or_create_project("/p", 6, vec![], false);
    assert!(!again);
    let p = state.projects.get("/p").unwrap();
    assert_eq!(p.file_tree.len(), 1);
    assert_eq!(p.last_active, 6);
}

#[test]
fn load_annotations_leaves_unnamed_entries_alone() {
    let mut tree = FileTree::new();
    tree.insert(entry("a.rs", 5, 1));
    tree.insert(entry("b.rs", 7, 2));
    let mut table = SymbolTable::new();
    define_file(&mut tree, "a.rs", "named").unwrap();
    define_file(&mut tree, "b.rs", "untouched").unwrap();
    mark_file(&mut tree, "b.rs", "config").unwrap();
    // annotation data that names only a.rs
    let mut small = FileTree::new();
    small.insert(entry("a.rs", 5, 1));
    define_file(&mut small, "a.rs", "restored").unwrap();
    let data = save_annotations(&small, &SymbolTable::new());
    load_annotations(&mut tree, &mut table, &data);
    assert_eq!(tree.get("a.rs").unwrap().definition.as_deref(), Some("restored"));
    let b = tree.get("b.rs").unwrap();
    assert_eq!(b.definition.as_deref(), Some("untouched"));
    assert_eq!(b.marks, vec![coderlm::file_entry::FileMark::Config]);
    assert_eq!(b.size, 7);
}
