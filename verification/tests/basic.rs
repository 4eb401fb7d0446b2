use coderlm::config::{should_ignore_dir, should_ignore_extension, DEFAULT_MAX_FILE_SIZE};
use coderlm::content::GrepScope;
use coderlm::file_entry::{FileEntry, FileMark, Language};
use coderlm::symbol::SymbolKind;

#[test]
fn ignore_dirs_cover_the_usual_suspects() {
    assert!(should_ignore_dir("node_modules"));
    assert!(should_ignore_dir(".git"));
    assert!(should_ignore_dir("target"));
    assert!(!should_ignore_dir("src"));
}

#[test]
fn ignore_extensions_are_case_insensitive() {
    assert!(should_ignore_extension("img/logo.PNG"));
    assert!(should_ignore_extension("bundle.min.js"));
    assert!(should_ignore_extension("Cargo.lock"));
    assert!(!should_ignore_extension("main.rs"));
}

#[test]
fn language_from_extension() {
    assert_eq!(Language::from_extension("rs"), Language::Rust);
    assert_eq!(Language::from_extension("PY"), Language::Python);
    assert_eq!(Language::from_extension("tsx"), Language::TypeScript);
    assert_eq!(Language::from_extension("mjs"), Language::JavaScript);
    assert_eq!(Language::from_extension("go"), Language::Go);
    assert_eq!(Language::from_extension("xyz"), Language::Other);
}

#[test]
fn language_from_path_uses_last_component() {
    assert_eq!(Language::from_path("src/lib.rs"), Language::Rust);
    assert_eq!(Language::from_path("a.d/readme"), Language::Other);
    assert_eq!(Language::from_path(".gitignore"), Language::Other);
    assert_eq!(Language::from_path("pkg/mod.go"), Language::Go);
}

#[test]
fn tree_sitter_support_is_the_closed_set() {
    assert!(Language::Rust.has_tree_sitter_support());
    assert!(Language::Python.has_tree_sitter_support());
    assert!(Language::TypeScript.has_tree_sitter_support());
    assert!(Language::JavaScript.has_tree_sitter_support());
    assert!(Language::Go.has_tree_sitter_support());
    assert!(!Language::Markdown.has_tree_sitter_support());
}

#[test]
fn mark_parsing_with_aliases() {
    assert_eq!(FileMark::from_str("DOC"), Some(FileMark::Documentation));
    assert_eq!(FileMark::from_str("tests"), Some(FileMark::Test));
    assert_eq!(FileMark::from_str("gen"), Some(FileMark::Generated));
    assert_eq!(FileMark::from_str("nope"), None);
}

#[test]
fn symbol_kind_parsing() {
    assert_eq!(SymbolKind::from_str("fn"), Some(SymbolKind::Function));
    assert_eq!(SymbolKind::from_str("USE"), Some(SymbolKind::Import));
    assert_eq!(SymbolKind::from_str("wat"), None);
}

#[test]
fn grep_scope_parsing() {
    assert_eq!(GrepScope::from_str("all"), Some(GrepScope::All));
    assert_eq!(GrepScope::from_str("Code"), Some(GrepScope::Code));
    assert_eq!(GrepScope::from_str("none"), None);
}

#[test]
fn new_file_entry_has_no_annotations() {
    let e = FileEntry::new(String::from("src/a.py"), 10, 99);
    assert_eq!(e.language, Language::Python);
    assert_eq!(e.size, 10);
    assert_eq!(e.modified, 99);
    assert!(e.definition.is_none());
    assert!(e.marks.is_empty());
    assert!(!e.symbols_extracted);
    assert!(DEFAULT_MAX_FILE_SIZE > 0);
}
