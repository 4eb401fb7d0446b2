//! Watcher event handling: how one debounced filesystem event updates the
//! file tree and the symbol table. The event loop itself runs outside and
//! hands in the observed state of the path.
use vstd::prelude::*;
use crate::config::{should_ignore_extension, spec_ignored_extension};
use crate::file_entry::{spec_has_profile, spec_language_of_path, FileEntry};
use crate::file_tree::FileTree;
use crate::parser::extract_symbols_from_file;
use crate::symbol_table::{keys_with_file, SymbolTable};
use crate::walker::{should_skip, spec_should_skip};
use vstd::string::StringSliceAdditionalSpecFns;

verus! {

/// What the watcher observed at a path after a debounced event: a live
/// file with its stat data and contents, or nothing.
pub enum WatchedState {
    Present { size: u64, modified: i64, text: String },
    Absent,
}

/// The records a changed file's text yields, when its path's language
/// has a profile that loads.
#[verifier::opaque]
pub open spec fn spec_change_syms(rel: Seq<char>, text: Seq<char>) -> Seq<
    crate::parser::SymbolView,
> {
    let lang = spec_language_of_path(rel);
    if spec_has_profile(lang) && crate::parser::grammar_loads(lang) {
        crate::parser::spec_extract(
            crate::parser::ts_query_caps(
                lang,
                crate::queries::spec_symbols_query(lang),
                text,
                0,
                (vstd::utf8::encode_utf8(text).len() as usize) as int,
            ),
            rel,
            lang,
        )
    } else {
        Seq::empty()
    }
}

/// The key is that of a record extracted from the changed file's text.
pub open spec fn spec_key_from_change(key: Seq<char>, rel: Seq<char>, text: Seq<char>) -> bool {
    exists|j: int|
        0 <= j < spec_change_syms(rel, text).len() && key == crate::symbol_table::spec_key(
            (#[trigger] spec_change_syms(rel, text)[j]).file,
            spec_change_syms(rel, text)[j].name,
        )
}

/// A changed file: skip ignored extensions and oversized files; otherwise
/// install a fresh record, drop the path's old symbols, and re-extract
/// when the language has a profile: afterwards the table holds exactly
/// the records of other files plus the file's freshly extracted ones.
#[verifier::loop_isolation(false)]
#[verifier::rlimit(100)]
pub fn handle_file_change(
    file_tree: &mut FileTree,
    symbol_table: &mut SymbolTable,
    rel_path: &str,
    size: u64,
    modified: i64,
    source: &str,
    max_file_size: u64,
) -> (updated: bool)
    requires
        old(file_tree).wf(),
        old(symbol_table).inv(),
        source.spec_bytes().len() < usize::MAX,
    ensures
        final(file_tree).wf(),
        final(symbol_table).inv(),
        updated == (!spec_ignored_extension(rel_path@) && size <= max_file_size),
        !updated ==> final(file_tree).files@ == old(file_tree).files@
            && final(symbol_table).symbols@ == old(symbol_table).symbols@,
        updated ==> final(file_tree).files@.contains_key(rel_path@) && ({
            let e = final(file_tree).files@[rel_path@];
            e.size == size && e.modified == modified && e.language == spec_language_of_path(
                rel_path@,
            ) && e.symbols_extracted == spec_has_profile(e.language)
        }),
        updated ==> forall|key: Seq<char>|
            #[trigger] final(symbol_table).symbols@.contains_key(key) <==> (old(
                symbol_table,
            ).symbols@.remove_keys(
                keys_with_file(old(symbol_table).symbols@, rel_path@),
            ).contains_key(key) || spec_key_from_change(key, rel_path@, source@)),
        updated ==> forall|p: Seq<char>|
            p != rel_path@ ==> (#[trigger] final(file_tree).files@.contains_key(p) == old(
                file_tree,
            ).files@.contains_key(p)) && (old(file_tree).files@.contains_key(p)
                ==> final(file_tree).files@[p] == old(file_tree).files@[p]),
        updated ==> forall|key: Seq<char>|
            old(symbol_table).symbols@.remove_keys(
                keys_with_file(old(symbol_table).symbols@, rel_path@),
            ).contains_key(key) && !spec_key_from_change(key, rel_path@, source@)
                ==> #[trigger] final(symbol_table).symbols@[key] == old(symbol_table).symbols@[key],
        updated ==> forall|key: Seq<char>|
            #[trigger] spec_key_from_change(key, rel_path@, source@)
                ==> final(symbol_table).symbols@.contains_key(key) && exists|j: int|
                0 <= j < spec_change_syms(rel_path@, source@).len() && key
                    == crate::symbol_table::spec_key(
                    (#[trigger] spec_change_syms(rel_path@, source@)[j]).file,
                    spec_change_syms(rel_path@, source@)[j].name,
                ) && final(symbol_table).symbols@[key].deep_view() == spec_change_syms(
                    rel_path@,
                    source@,
                )[j],
{
    if should_ignore_extension(rel_path) {
        return false;
    }
    if size > max_file_size {
        return false;
    }
    let mut entry = FileEntry::new(String::from_str(rel_path), size, modified);
    let language = entry.language;
    symbol_table.remove_file(rel_path);
    let ghost pruned = symbol_table.symbols@;
    if language.has_tree_sitter_support() {
        let symbols = extract_symbols_from_file(rel_path, language, source);
        proof {
            reveal(spec_change_syms);
            if crate::parser::grammar_loads(language) {
                assert(symbols.deep_view() == spec_change_syms(rel_path@, source@));
            } else {
                assert(symbols@.len() == 0);
                assert(spec_change_syms(rel_path@, source@) == Seq::<
                    crate::parser::SymbolView,
                >::empty());
            }
        }
        let ghost mut winner: Map<Seq<char>, int> = Map::empty();
        let mut i: usize = 0;
        while i < symbols.len()
            invariant
                symbol_table.inv(),
                i <= symbols@.len(),
                symbols.deep_view().len() == symbols@.len(),
                symbols.deep_view() == spec_change_syms(rel_path@, source@),
                forall|key: Seq<char>|
                    #[trigger] symbol_table.symbols@.contains_key(key) <==> (pruned.contains_key(
                        key,
                    ) || winner.dom().contains(key)),
                forall|key: Seq<char>|
                    pruned.contains_key(key) && !spec_key_from_change(key, rel_path@, source@)
                        ==> #[trigger] symbol_table.symbols@[key] == pruned[key],
                forall|key: Seq<char>|
                    #[trigger] winner.dom().contains(key) ==> 0 <= winner[key] < i
                        && crate::symbol_table::spec_key(
                        symbols.deep_view()[winner[key]].file,
                        symbols.deep_view()[winner[key]].name,
                    ) == key && symbol_table.symbols@[key].deep_view() == symbols.deep_view()[
                        winner[key]],
                forall|j: int|
                    0 <= j < i ==> winner.dom().contains(
                        crate::symbol_table::spec_key(
                            (#[trigger] symbols.deep_view()[j]).file,
                            symbols.deep_view()[j].name,
                        ),
                    ),
            decreases symbols@.len() - i,
        {
            let ghost before = symbol_table.symbols@;
            let s0 = symbols[i].duplicate();
            proof {
                assert(symbols.deep_view()[i as int] == symbols@[i as int].deep_view());
                assert(s0.file@ == symbols.deep_view()[i as int].file);
                assert(s0.name@ == symbols.deep_view()[i as int].name);
            }
            symbol_table.insert(s0);
            proof {
                let ikey = crate::symbol_table::spec_key(
                    symbols.deep_view()[i as int].file,
                    symbols.deep_view()[i as int].name,
                );
                let w0 = winner;
                winner = w0.insert(ikey, i as int);
                assert(symbol_table.symbols@[ikey] == s0);
                assert(s0.deep_view() == symbols.deep_view()[i as int]);
                assert(spec_change_syms(rel_path@, source@)[i as int] == symbols.deep_view()[
                    i as int]);
                assert(spec_key_from_change(ikey, rel_path@, source@));
                assert forall|key: Seq<char>|
                    #[trigger] symbol_table.symbols@.contains_key(key) implies (
                pruned.contains_key(key) || winner.dom().contains(key)) by {
                    if key != ikey {
                        assert(before.contains_key(key));
                        if !pruned.contains_key(key) {
                            assert(w0.dom().contains(key));
                        }
                    }
                }
                assert forall|key: Seq<char>|
                    (pruned.contains_key(key) || winner.dom().contains(key))
                        implies #[trigger] symbol_table.symbols@.contains_key(key) by {
                    if key != ikey {
                        assert(w0.dom().contains(key) ==> before.contains_key(key));
                    }
                }
                assert forall|key: Seq<char>|
                    pruned.contains_key(key) && !spec_key_from_change(key, rel_path@, source@)
                        implies #[trigger] symbol_table.symbols@[key] == pruned[key] by {
                    assert(key != ikey);
                    assert(symbol_table.symbols@[key] == before[key]);
                }
                assert forall|key: Seq<char>|
                    #[trigger] winner.dom().contains(key) implies 0 <= winner[key] < i + 1
                        && crate::symbol_table::spec_key(
                        symbols.deep_view()[winner[key]].file,
                        symbols.deep_view()[winner[key]].name,
                    ) == key && symbol_table.symbols@[key].deep_view() == symbols.deep_view()[
                        winner[key]] by {
                    if key == ikey {
                        assert(winner[key] == i as int);
                    } else {
                        assert(w0.dom().contains(key) && winner[key] == w0[key]);
                        assert(symbol_table.symbols@[key] == before[key]);
                    }
                }
                assert forall|j: int| 0 <= j < i + 1 implies winner.dom().contains(
                    crate::symbol_table::spec_key(
                        (#[trigger] symbols.deep_view()[j]).file,
                        symbols.deep_view()[j].name,
                    ),
                ) by {
                    if j < i {
                        assert(w0.dom().contains(
                            crate::symbol_table::spec_key(
                                symbols.deep_view()[j].file,
                                symbols.deep_view()[j].name,
                            ),
                        ));
                    } else {
                        assert(winner.dom().contains(ikey));
                    }
                }
            }
            i += 1;
        }
        proof {
            assert forall|key: Seq<char>|
                #[trigger] spec_key_from_change(key, rel_path@, source@) implies winner
                .dom().contains(key) by {
                let j = choose|j: int|
                    0 <= j < spec_change_syms(rel_path@, source@).len() && key
                        == crate::symbol_table::spec_key(
                        (#[trigger] spec_change_syms(rel_path@, source@)[j]).file,
                        spec_change_syms(rel_path@, source@)[j].name,
                    );
                assert(spec_change_syms(rel_path@, source@)[j] == symbols.deep_view()[j]);
                assert(winner.dom().contains(
                    crate::symbol_table::spec_key(
                        symbols.deep_view()[j].file,
                        symbols.deep_view()[j].name,
                    ),
                ));
            }
            assert forall|key: Seq<char>|
                #[trigger] winner.dom().contains(key) implies spec_key_from_change(
                key,
                rel_path@,
                source@,
            ) by {
                let j = winner[key];
                assert(spec_change_syms(rel_path@, source@)[j] == symbols.deep_view()[j]);
                assert(0 <= j < spec_change_syms(rel_path@, source@).len() && key
                    == crate::symbol_table::spec_key(
                    spec_change_syms(rel_path@, source@)[j].file,
                    spec_change_syms(rel_path@, source@)[j].name,
                ));
            }
            assert forall|key: Seq<char>|
                #[trigger] spec_key_from_change(key, rel_path@, source@) implies symbol_table
                .symbols@.contains_key(key) && exists|j: int|
                0 <= j < spec_change_syms(rel_path@, source@).len() && key
                    == crate::symbol_table::spec_key(
                    (#[trigger] spec_change_syms(rel_path@, source@)[j]).file,
                    spec_change_syms(rel_path@, source@)[j].name,
                ) && symbol_table.symbols@[key].deep_view() == spec_change_syms(
                    rel_path@,
                    source@,
                )[j] by {
                assert(winner.dom().contains(key));
                let j = winner[key];
                assert(spec_change_syms(rel_path@, source@)[j] == symbols.deep_view()[j]);
                assert(0 <= j < spec_change_syms(rel_path@, source@).len() && key
                    == crate::symbol_table::spec_key(
                    spec_change_syms(rel_path@, source@)[j].file,
                    spec_change_syms(rel_path@, source@)[j].name,
                ) && symbol_table.symbols@[key].deep_view() == spec_change_syms(
                    rel_path@,
                    source@,
                )[j]);
            }
        }
        entry.symbols_extracted = true;
    } else {
        proof {
            reveal(spec_change_syms);
            assert(spec_change_syms(rel_path@, source@) =~= Seq::<
                crate::parser::SymbolView,
            >::empty());
        }
    }
    file_tree.insert(entry);
    true
}

/// A vanished path: drop its record and every symbol of that file, so
/// nothing of an absent path stays reachable.
pub fn handle_file_delete(
    file_tree: &mut FileTree,
    symbol_table: &mut SymbolTable,
    rel_path: &str,
) -> (removed: bool)
    requires
        old(file_tree).wf(),
        old(symbol_table).inv(),
    ensures
        final(file_tree).wf(),
        final(symbol_table).inv(),
        removed == old(file_tree).files@.contains_key(rel_path@),
        final(file_tree).files@ == old(file_tree).files@.remove(rel_path@),
        final(symbol_table).symbols@ == old(symbol_table).symbols@.remove_keys(
            keys_with_file(old(symbol_table).symbols@, rel_path@),
        ),
{
    let removed = file_tree.remove(rel_path).is_some();
    symbol_table.remove_file(rel_path);
    removed
}

/// One debounced event: ignore paths under the built-in ignore set, then
/// re-index a present file or drop an absent one.
pub fn handle_event(
    file_tree: &mut FileTree,
    symbol_table: &mut SymbolTable,
    rel_path: &str,
    state: &WatchedState,
    max_file_size: u64,
) -> (acted: bool)
    requires
        old(file_tree).wf(),
        old(symbol_table).inv(),
        match state {
            WatchedState::Present { text, .. } => vstd::utf8::encode_utf8(text@).len()
                < usize::MAX,
            WatchedState::Absent => true,
        },
    ensures
        final(file_tree).wf(),
        final(symbol_table).inv(),
        spec_should_skip(rel_path@) ==> !acted && final(file_tree).files@ == old(file_tree).files@
            && final(symbol_table).symbols@ == old(symbol_table).symbols@,
        !spec_should_skip(rel_path@) ==> match state {
            WatchedState::Present { size, modified, text } => {
                &&& acted == (!spec_ignored_extension(rel_path@) && size <= max_file_size)
                &&& (!acted ==> final(file_tree).files@ == old(file_tree).files@
                    && final(symbol_table).symbols@ == old(symbol_table).symbols@)
                &&& (acted ==> final(file_tree).files@.contains_key(rel_path@) && ({
                    let e = final(file_tree).files@[rel_path@];
                    e.size == size && e.modified == modified && e.language
                        == spec_language_of_path(rel_path@) && e.symbols_extracted
                        == spec_has_profile(e.language)
                }))
                &&& (acted ==> forall|key: Seq<char>|
                    #[trigger] final(symbol_table).symbols@.contains_key(key) <==> (old(
                        symbol_table,
                    ).symbols@.remove_keys(
                        keys_with_file(old(symbol_table).symbols@, rel_path@),
                    ).contains_key(key) || spec_key_from_change(key, rel_path@, text@)))
            },
            WatchedState::Absent => {
                &&& acted == old(file_tree).files@.contains_key(rel_path@)
                &&& final(file_tree).files@ == old(file_tree).files@.remove(rel_path@)
                &&& final(symbol_table).symbols@ == old(symbol_table).symbols@.remove_keys(
                    keys_with_file(old(symbol_table).symbols@, rel_path@),
                )
            },
        },
{
    if should_skip(rel_path) {
        return false;
    }
    match state {
        WatchedState::Present { size, modified, text } => {
            handle_file_change(
                file_tree,
                symbol_table,
                rel_path,
                *size,
                *modified,
                text.as_str(),
                max_file_size,
            )
        },
        WatchedState::Absent => handle_file_delete(file_tree, symbol_table, rel_path),
    }
}

} // verus!
