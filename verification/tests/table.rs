use coderlm::file_entry::Language;
use coderlm::symbol::{Symbol, SymbolKind};
use coderlm::symbol_table::SymbolTable;
use coderlm::symbol_ops::{define_symbol, list_symbols, redefine_symbol, search_symbols};

fn sym(name: &str, file: &str, line: usize) -> Symbol {
    Symbol {
        name: name.to_string(),
        kind: SymbolKind::Function,
        file: file.to_string(),
        byte_range: (0, 10),
        line_range: (line, line + 2),
        language: Language::Rust,
        signature: format!("fn {}()", name),
        definition: None,
        parent: None,
    }
}

#[test]
fn insert_get_len() {
    let mut t = SymbolTable::new();
    t.insert(sym("foo", "a.rs", 1));
    t.insert(sym("bar", "a.rs", 5));
    t.insert(sym("foo", "b.rs", 2));
    assert_eq!(t.len(), 3);
    let got = t.get("a.rs", "foo").unwrap();
    assert_eq!(got.name, "foo");
    assert_eq!(got.file, "a.rs");
    assert!(t.get("c.rs", "foo").is_none());
}

#[test]
fn make_key_format() {
    assert_eq!(SymbolTable::make_key("a.rs", "foo"), "a.rs::foo");
}

#[test]
fn indices_follow_insert_and_remove_file() {
    let mut t = SymbolTable::new();
    t.insert(sym("foo", "a.rs", 1));
    t.insert(sym("bar", "a.rs", 5));
    t.insert(sym("foo", "b.rs", 2));
    assert_eq!(t.list_by_file("a.rs").len(), 2);
    assert_eq!(t.list_by_file("b.rs").len(), 1);
    t.remove_file("a.rs");
    assert_eq!(t.len(), 1);
    assert!(t.get("a.rs", "foo").is_none());
    assert!(t.get("a.rs", "bar").is_none());
    assert_eq!(t.list_by_file("a.rs").len(), 0);
    assert_eq!(t.list_by_file("b.rs").len(), 1);
    // inserting again rebuilds the index entries
    t.insert(sym("foo", "a.rs", 1));
    assert_eq!(t.list_by_file("a.rs").len(), 1);
}

#[test]
fn search_is_case_insensitive_and_capped() {
    let mut t = SymbolTable::new();
    t.insert(sym("AlphaBeta", "a.rs", 1));
    t.insert(sym("beta_gamma", "b.rs", 1));
    t.insert(sym("delta", "c.rs", 1));
    let hits = search_symbols(&t, "BETA", 10);
    assert_eq!(hits.len(), 2);
    let capped = search_symbols(&t, "BETA", 1);
    assert_eq!(capped.len(), 1);
    assert!(search_symbols(&t, "zzz", 10).is_empty());
}

#[test]
fn list_symbols_sorts_and_filters() {
    let mut t = SymbolTable::new();
    t.insert(sym("z", "b.rs", 9));
    t.insert(sym("a", "b.rs", 1));
    t.insert(sym("m", "a.rs", 4));
    let all = list_symbols(&t, None, None, 10);
    assert_eq!(all.len(), 3);
    assert_eq!(all[0].file, "a.rs");
    assert_eq!(all[1].line_range.0, 1);
    assert_eq!(all[2].line_range.0, 9);
    let only_b = list_symbols(&t, None, Some("b.rs"), 10);
    assert_eq!(only_b.len(), 2);
    let none = list_symbols(&t, Some(SymbolKind::Struct), None, 10);
    assert!(none.is_empty());
}

#[test]
fn define_rejects_when_present_redefine_overwrites() {
    let mut t = SymbolTable::new();
    t.insert(sym("foo", "a.rs", 1));
    assert!(define_symbol(&mut t, "foo", "a.rs", "first").is_ok());
    assert!(define_symbol(&mut t, "foo", "a.rs", "second").is_err());
    assert!(redefine_symbol(&mut t, "foo", "a.rs", "third").is_ok());
    assert_eq!(t.get("a.rs", "foo").unwrap().definition.as_deref(), Some("third"));
    assert!(define_symbol(&mut t, "nope", "a.rs", "x").is_err());
}
