use coderlm::file_entry::Language;
use coderlm::file_tree::FileTree;
use coderlm::file_entry::FileEntry;
use coderlm::parser::{extract_all_symbols, extract_symbols_from_file};
use coderlm::symbol::SymbolKind;
use coderlm::symbol_table::SymbolTable;
use coderlm::symbol_ops::{find_callers, find_tests, get_implementation, list_variables, OpSource};
use coderlm::watcher::{handle_event, handle_file_delete, WatchedState};

#[test]
fn extracts_rust_symbols_with_parents() {
    let src = "struct S;\n\nimpl S {\n    fn m(&self) {}\n}\n\nfn foo() {}\n";
    let syms = extract_symbols_from_file("x.rs", Language::Rust, src);
    let names: Vec<&str> = syms.iter().map(|s| s.name.as_str()).collect();
    assert!(names.contains(&"S"));
    assert!(names.contains(&"m"));
    assert!(names.contains(&"foo"));
    let m = syms.iter().find(|s| s.name == "m").unwrap();
    assert_eq!(m.kind, SymbolKind::Method);
    assert_eq!(m.parent.as_deref(), Some("S"));
    assert_eq!(m.signature, "fn m(&self) {}");
    let foo = syms.iter().find(|s| s.name == "foo").unwrap();
    assert_eq!(foo.kind, SymbolKind::Function);
    assert_eq!(foo.line_range.0, 7);
    assert_eq!(foo.signature, "fn foo() {}");
}

#[test]
fn no_profile_no_symbols() {
    let syms = extract_symbols_from_file("x.md", Language::Markdown, "# nope");
    assert!(syms.is_empty());
}

#[test]
fn watcher_reextraction_replaces_symbols() {
    let mut tree = FileTree::new();
    let mut table = SymbolTable::new();
    tree.insert(FileEntry::new("x.rs".to_string(), 12, 1));
    let changed = handle_event(
        &mut tree,
        &mut table,
        "x.rs",
        &WatchedState::Present { size: 12, modified: 2, text: "fn foo() {}\n".to_string() },
        1000,
    );
    assert!(changed);
    assert_eq!(table.search("foo", 10).len(), 1);
    // edit the file: foo is gone, bar appears
    handle_event(
        &mut tree,
        &mut table,
        "x.rs",
        &WatchedState::Present { size: 12, modified: 3, text: "fn bar() {}\n".to_string() },
        1000,
    );
    assert!(table.search("foo", 10).is_empty());
    let bar = table.search("bar", 10);
    assert_eq!(bar.len(), 1);
    assert_eq!(bar[0].file, "x.rs");
    assert_eq!(bar[0].line_range.0, 1);
    assert_eq!(table.list_by_file("x.rs").len(), 1);
    // deletion clears both stores
    let removed = handle_file_delete(&mut tree, &mut table, "x.rs");
    assert!(removed);
    assert!(tree.get("x.rs").is_none());
    assert_eq!(table.len(), 0);
    // events under ignored directories are skipped
    let acted = handle_event(
        &mut tree,
        &mut table,
        "target/x.rs",
        &WatchedState::Absent,
        1000,
    );
    assert!(!acted);
}

#[test]
fn extract_all_marks_files() {
    let mut tree = FileTree::new();
    let mut table = SymbolTable::new();
    tree.insert(FileEntry::new("a.rs".to_string(), 11, 1));
    tree.insert(FileEntry::new("b.md".to_string(), 5, 1));
    let sources = vec![
        ("a.rs".to_string(), "fn alpha() {}\n".to_string()),
        ("b.md".to_string(), "# doc".to_string()),
    ];
    let n = extract_all_symbols(&mut tree, &mut table, &sources);
    assert_eq!(n, 1);
    assert!(tree.get("a.rs").unwrap().symbols_extracted);
    assert!(!tree.get("b.md").unwrap().symbols_extracted);
    assert!(table.get("a.rs", "alpha").is_some());
}

#[test]
fn implementation_is_the_byte_range() {
    let src = "fn foo() { 1 }\nfn bar() {}\n";
    let mut table = SymbolTable::new();
    for s in extract_symbols_from_file("x.rs", Language::Rust, src) {
        table.insert(s);
    }
    let body = get_implementation(&table, "foo", "x.rs", src).unwrap();
    assert_eq!(body, "fn foo() { 1 }");
    assert!(get_implementation(&table, "baz", "x.rs", src).is_err());
}

#[test]
fn callers_skip_the_definition_line() {
    let a = "package p\n\nfunc Foo() {}\n";
    let b = "package p\n\nfunc Use() {\n\tFoo()\n}\n";
    let mut table = SymbolTable::new();
    for s in extract_symbols_from_file("a.go", Language::Go, a) {
        table.insert(s);
    }
    let sources = vec![
        OpSource { path: "a.go".to_string(), language: Language::Go, text: a.to_string() },
        OpSource { path: "b.go".to_string(), language: Language::Go, text: b.to_string() },
    ];
    let callers = find_callers(&table, &sources, "Foo", "a.go", 10).unwrap();
    assert_eq!(callers.len(), 1);
    assert_eq!(callers[0].file, "b.go");
    assert_eq!(callers[0].line, 4);
    assert_eq!(callers[0].text, "Foo()");
    assert!(find_callers(&table, &sources, "Nope", "a.go", 10).is_err());
}

#[test]
fn variables_stay_inside_the_function() {
    let src = "fn outer() {\n    let a = 1;\n    let b = 2;\n}\n\nfn inner() {\n    let c = 3;\n}\n";
    let mut table = SymbolTable::new();
    for s in extract_symbols_from_file("x.rs", Language::Rust, src) {
        table.insert(s);
    }
    let vars = list_variables(&table, "outer", "x.rs", src).unwrap();
    let names: Vec<&str> = vars.iter().map(|v| v.name.as_str()).collect();
    assert!(names.contains(&"a"));
    assert!(names.contains(&"b"));
    assert!(!names.contains(&"c"));
    assert!(list_variables(&table, "ghost_fn", "x.rs", src).is_err());
}

#[test]
fn tests_that_mention_the_symbol() {
    let lib = "fn target() {}\n";
    let t = "fn test_target_works() {\n    target();\n}\nfn test_other() {}\n";
    let mut table = SymbolTable::new();
    for s in extract_symbols_from_file("src/lib.rs", Language::Rust, lib) {
        table.insert(s);
    }
    for s in extract_symbols_from_file("tests/t.rs", Language::Rust, t) {
        table.insert(s);
    }
    let sources = vec![
        OpSource {
            path: "src/lib.rs".to_string(),
            language: Language::Rust,
            text: lib.to_string(),
        },
        OpSource {
            path: "tests/t.rs".to_string(),
            language: Language::Rust,
            text: t.to_string(),
        },
    ];
    let found = find_tests(&table, &sources, "target", "src/lib.rs", 10).unwrap();
    assert_eq!(found.len(), 1);
    assert_eq!(found[0].name, "test_target_works");
}

#[test]
fn callers_truncate_in_file_order() {
    let a = "package p\n\nfunc Foo() {}\n";
    let b = "package p\n\nfunc U1() {\n\tFoo()\n}\n\nfunc U2() {\n\tFoo()\n}\n";
    let c = "package p\n\nfunc U3() {\n\tFoo()\n}\n";
    let mut table = SymbolTable::new();
    for s in extract_symbols_from_file("a.go", Language::Go, a) {
        table.insert(s);
    }
    let sources = vec![
        OpSource { path: "a.go".to_string(), language: Language::Go, text: a.to_string() },
        OpSource { path: "b.go".to_string(), language: Language::Go, text: b.to_string() },
        OpSource { path: "c.go".to_string(), language: Language::Go, text: c.to_string() },
    ];
    let all = find_callers(&table, &sources, "Foo", "a.go", 10).unwrap();
    assert_eq!(all.len(), 3);
    assert_eq!(all[0].file, "b.go");
    assert_eq!(all[1].file, "b.go");
    assert_eq!(all[2].file, "c.go");
    let capped = find_callers(&table, &sources, "Foo", "a.go", 2).unwrap();
    assert_eq!(capped.len(), 2);
    assert_eq!(capped[0].file, "b.go");
    assert_eq!(capped[1].file, "b.go");
    assert_eq!(capped[0].line, all[0].line);
}
