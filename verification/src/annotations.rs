//! Agent annotations: collecting definitions and marks for persistence,
//! and applying restored annotations to live state. The JSON encoding
//! happens outside on plain maps of strings.
use vstd::prelude::*;
use crate::file_entry::{spec_entry_same_core, spec_mark_of, FileEntry, FileMark};
use crate::file_tree::FileTree;
use crate::strmap::StrMap;
use crate::symbol_table::{spec_key, SymbolTable};
use crate::text::str_eq;
use vstd::string::StringExecFns;

verus! {

/// The annotations of one project, as plain string maps: file path to
/// definition, file path to mark names, `file::name` to definition.
pub struct AnnotationData {
    pub file_definitions: StrMap<String>,
    pub file_marks: StrMap<Vec<String>>,
    pub symbol_definitions: StrMap<String>,
}

/// The lowercase name of a mark.
pub fn mark_name(m: FileMark) -> (r: &'static str)
    ensures
        crate::file_entry::spec_mark_of(r@) == Some(m),
{
    proof {
        reveal_strlit("documentation");
        reveal_strlit("doc");
        reveal_strlit("docs");
        reveal_strlit("ignore");
        reveal_strlit("test");
        reveal_strlit("tests");
        reveal_strlit("config");
        reveal_strlit("configuration");
        reveal_strlit("generated");
        reveal_strlit("gen");
        reveal_strlit("custom");
        assert(("documentation"@).len() == 13);
        assert(("doc"@).len() == 3);
        assert(("docs"@).len() == 4);
        assert(("ignore"@).len() == 6);
        assert(("test"@).len() == 4);
        assert(("tests"@).len() == 5);
        assert(("config"@).len() == 6);
        assert(("configuration"@).len() == 13);
        assert(("generated"@).len() == 9);
        assert(("gen"@).len() == 3);
        assert(("custom"@).len() == 6);
        assert(("ignore"@)[0] == 'i' && ("config"@)[0] == 'c' && ("custom"@)[0] == 'c');
        assert(("custom"@)[1] == 'u' && ("config"@)[1] == 'o');
        assert(("test"@)[0] == 't' && ("docs"@)[0] == 'd');
        assert(("documentation"@)[0] == 'd' && ("configuration"@)[0] == 'c');
        assert(("generated"@)[0] == 'g');
    }
    match m {
        FileMark::Documentation => {
            proof {
                assert(crate::file_entry::spec_mark_of("documentation"@) == Some(
                    FileMark::Documentation,
                ));
            }
            "documentation"
        },
        FileMark::Ignore => {
            proof {
                assert(crate::file_entry::spec_mark_of("ignore"@) == Some(FileMark::Ignore));
            }
            "ignore"
        },
        FileMark::Test => {
            proof {
                assert(crate::file_entry::spec_mark_of("test"@) == Some(FileMark::Test));
            }
            "test"
        },
        FileMark::Config => {
            proof {
                assert(crate::file_entry::spec_mark_of("config"@) == Some(FileMark::Config));
            }
            "config"
        },
        FileMark::Generated => {
            proof {
                assert(crate::file_entry::spec_mark_of("generated"@) == Some(FileMark::Generated));
            }
            "generated"
        },
        FileMark::Custom => {
            proof {
                assert(crate::file_entry::spec_mark_of("custom"@) == Some(FileMark::Custom));
            }
            "custom"
        },
    }
}

/// Collect every agent-set definition and mark: one entry per defined
/// file, one per marked file, one per defined symbol.
#[verifier::loop_isolation(false)]
pub fn save_annotations(file_tree: &FileTree, symbol_table: &SymbolTable) -> (r: AnnotationData)
    requires
        file_tree.wf(),
        symbol_table.inv(),
    ensures
        r.file_definitions.wf(),
        r.file_marks.wf(),
        r.symbol_definitions.wf(),
        forall|p: Seq<char>|
            #[trigger] r.file_definitions@.contains_key(p) ==> file_tree.files@.contains_key(p)
                && crate::parser::opt_view(file_tree.files@[p].definition) == Some(
                r.file_definitions@[p]@,
            ),
        forall|p: Seq<char>|
            file_tree.files@.contains_key(p) && file_tree.files@[p].definition is Some
                ==> #[trigger] r.file_definitions@.contains_key(p),
        forall|p: Seq<char>|
            #[trigger] r.file_marks@.contains_key(p) ==> file_tree.files@.contains_key(p)
                && file_tree.files@[p].marks@.len() > 0 && r.file_marks@[p]@.len()
                == file_tree.files@[p].marks@.len() && (forall|j: int|
                0 <= j < r.file_marks@[p]@.len() ==> spec_mark_of((#[trigger] r.file_marks@[p]@[j])@)
                    == Some(file_tree.files@[p].marks@[j])),
        forall|p: Seq<char>|
            file_tree.files@.contains_key(p) && file_tree.files@[p].marks@.len() > 0
                ==> #[trigger] r.file_marks@.contains_key(p),
        forall|k: Seq<char>|
            #[trigger] r.symbol_definitions@.contains_key(k) ==> symbol_table.symbols@.contains_key(
                k,
            ) && crate::parser::opt_view(symbol_table.symbols@[k].definition) == Some(
                r.symbol_definitions@[k]@,
            ),
        forall|k: Seq<char>|
            symbol_table.symbols@.contains_key(k) && symbol_table.symbols@[k].definition is Some
                ==> #[trigger] r.symbol_definitions@.contains_key(k),
{
    let mut file_definitions: StrMap<String> = StrMap::new();
    let mut file_marks: StrMap<Vec<String>> = StrMap::new();
    let mut i: usize = 0;
    while i < file_tree.files.entries.len()
        invariant
            file_definitions.wf(),
            file_marks.wf(),
            i <= file_tree.files.entries@.len(),
            forall|p: Seq<char>|
                #[trigger] file_definitions@.contains_key(p) ==> file_tree.files@.contains_key(p)
                    && crate::parser::opt_view(file_tree.files@[p].definition) == Some(
                    file_definitions@[p]@,
                ),
            forall|j: int|
                0 <= j < i && (#[trigger] file_tree.files.entries@[j]).1.definition is Some
                    ==> file_definitions@.contains_key(file_tree.files.entries@[j].0@),
            forall|p: Seq<char>|
                #[trigger] file_marks@.contains_key(p) ==> file_tree.files@.contains_key(p)
                    && file_tree.files@[p].marks@.len() > 0 && file_marks@[p]@.len()
                    == file_tree.files@[p].marks@.len() && (forall|j: int|
                    0 <= j < file_marks@[p]@.len() ==> spec_mark_of(
                        (#[trigger] file_marks@[p]@[j])@,
                    ) == Some(file_tree.files@[p].marks@[j])),
            forall|j: int|
                0 <= j < i && (#[trigger] file_tree.files.entries@[j]).1.marks@.len() > 0
                    ==> file_marks@.contains_key(file_tree.files.entries@[j].0@),
        decreases file_tree.files.entries@.len() - i,
    {
        proof {
            file_tree.files.lemma_entries_in_view();
        }
        let e = &file_tree.files.entries[i];
        match &e.1.definition {
            Some(d) => {
                file_definitions.insert(e.0.clone(), d.clone());
            },
            None => {},
        }
        if e.1.marks.len() > 0 {
            let mut names: Vec<String> = Vec::new();
            let mut mi: usize = 0;
            while mi < e.1.marks.len()
                invariant
                    mi <= e.1.marks@.len(),
                    names@.len() == mi,
                    forall|j: int|
                        0 <= j < mi ==> spec_mark_of((#[trigger] names@[j])@) == Some(
                            e.1.marks@[j],
                        ),
                decreases e.1.marks@.len() - mi,
            {
                names.push(String::from_str(mark_name(e.1.marks[mi])));
                mi += 1;
            }
            proof {
                assert(file_tree.files@[e.0@] == file_tree.files.entries@[i as int].1);
            }
            file_marks.insert(e.0.clone(), names);
        }
        i += 1;
    }
    let mut symbol_definitions: StrMap<String> = StrMap::new();
    let mut s: usize = 0;
    while s < symbol_table.symbols.entries.len()
        invariant
            symbol_definitions.wf(),
            s <= symbol_table.symbols.entries@.len(),
            forall|k: Seq<char>|
                #[trigger] symbol_definitions@.contains_key(k)
                    ==> symbol_table.symbols@.contains_key(k) && crate::parser::opt_view(
                    symbol_table.symbols@[k].definition,
                ) == Some(symbol_definitions@[k]@),
            forall|j: int|
                0 <= j < s && (#[trigger] symbol_table.symbols.entries@[j]).1.definition is Some
                    ==> symbol_definitions@.contains_key(symbol_table.symbols.entries@[j].0@),
        decreases symbol_table.symbols.entries@.len() - s,
    {
        proof {
            symbol_table.symbols.lemma_entries_in_view();
        }
        let e = &symbol_table.symbols.entries[s];
        match &e.1.definition {
            Some(d) => {
                symbol_definitions.insert(e.0.clone(), d.clone());
            },
            None => {},
        }
        s += 1;
    }
    proof {
        file_tree.files.lemma_entries_in_view();
        symbol_table.symbols.lemma_entries_in_view();
        assert forall|p: Seq<char>|
            file_tree.files@.contains_key(p) && file_tree.files@[p].definition is Some
                implies #[trigger] file_definitions@.contains_key(p) by {
            let j = choose|j: int|
                0 <= j < file_tree.files.entries@.len() && (#[trigger] file_tree.files.entries@[
                j]).0@ == p;
        }
        assert forall|k: Seq<char>|
            symbol_table.symbols@.contains_key(k) && symbol_table.symbols@[k].definition is Some
                implies #[trigger] symbol_definitions@.contains_key(k) by {
            let j = choose|j: int|
                0 <= j < symbol_table.symbols.entries@.len() && (
                #[trigger] symbol_table.symbols.entries@[j]).0@ == k;
        }
    }
    AnnotationData { file_definitions, file_marks, symbol_definitions }
}

/// A mark list after a load: the old list is an untouched prefix, every
/// appended mark parses from one of the supplied names, and no appended
/// mark repeats any other mark in the list.
pub open spec fn spec_marks_appended(
    new: Seq<FileMark>,
    old: Seq<FileMark>,
    names: Seq<String>,
) -> bool {
    &&& new.len() >= old.len()
    &&& new.take(old.len() as int) == old
    &&& forall|i: int|
        old.len() <= i < new.len() ==> exists|j: int|
            0 <= j < names.len() && spec_mark_of(crate::text::lower_of((#[trigger] names[j])@))
                == Some(#[trigger] new[i])
    &&& forall|a: int, b: int| 0 <= a < b < new.len() && old.len() <= b ==> new[a] != new[b]
}

/// Apply restored annotations: definitions land on files and symbols that
/// still exist, marks are parsed and appended where absent; entries for
/// missing files or symbols and unknown marks are skipped. Everything
/// else — other entries, and every field of a touched entry beyond the
/// one applied — is unchanged. The counts say how many file definitions,
/// mark lists and symbol definitions were applied.
#[verifier::loop_isolation(false)]
#[verifier::rlimit(60)]
pub fn load_annotations(
    file_tree: &mut FileTree,
    symbol_table: &mut SymbolTable,
    data: &AnnotationData,
) -> (applied: (usize, usize, usize))
    requires
        old(file_tree).wf(),
        old(symbol_table).inv(),
        data.file_definitions.wf(),
        data.file_marks.wf(),
        data.symbol_definitions.wf(),
    ensures
        final(file_tree).wf(),
        final(symbol_table).inv(),
        forall|p: Seq<char>|
            #[trigger] final(file_tree).files@.contains_key(p) == old(
                file_tree,
            ).files@.contains_key(p),
        forall|k: Seq<char>|
            #[trigger] final(symbol_table).symbols@.contains_key(k) == old(
                symbol_table,
            ).symbols@.contains_key(k),
        forall|p: Seq<char>|
            data.file_definitions@.contains_key(p) && old(file_tree).files@.contains_key(p)
                ==> crate::parser::opt_view((#[trigger] final(file_tree).files@[p]).definition)
                == Some(data.file_definitions@[p]@),
        forall|p: Seq<char>|
            data.file_marks@.contains_key(p) && old(file_tree).files@.contains_key(p) ==> (forall|
                j: int,
            |
                0 <= j < data.file_marks@[p]@.len() ==> (match spec_mark_of(
                    crate::text::lower_of((#[trigger] data.file_marks@[p]@[j])@),
                ) {
                    Some(m) => final(file_tree).files@[p].marks@.contains(m),
                    None => true,
                })),
        forall|k: Seq<char>|
            data.symbol_definitions@.contains_key(k) && old(symbol_table).symbols@.contains_key(k)
                ==> crate::parser::opt_view(
                (#[trigger] final(symbol_table).symbols@[k]).definition,
            ) == Some(data.symbol_definitions@[k]@),
        forall|p: Seq<char>|
            #[trigger] final(file_tree).files@.contains_key(p) ==> spec_entry_same_core(
                final(file_tree).files@[p],
                old(file_tree).files@[p],
            ),
        forall|p: Seq<char>|
            final(file_tree).files@.contains_key(p) && !data.file_definitions@.contains_key(p)
                ==> (#[trigger] final(file_tree).files@[p]).definition == old(file_tree).files@[
                p].definition,
        forall|p: Seq<char>|
            final(file_tree).files@.contains_key(p) && !data.file_marks@.contains_key(p) ==> (
            #[trigger] final(file_tree).files@[p]).marks@ == old(file_tree).files@[p].marks@,
        forall|p: Seq<char>|
            final(file_tree).files@.contains_key(p) && data.file_marks@.contains_key(p)
                ==> spec_marks_appended(
                (#[trigger] final(file_tree).files@[p]).marks@,
                old(file_tree).files@[p].marks@,
                data.file_marks@[p]@,
            ),
        forall|k: Seq<char>|
            #[trigger] final(symbol_table).symbols@.contains_key(k)
                ==> crate::symbol::spec_sym_same_but_definition(
                final(symbol_table).symbols@[k],
                old(symbol_table).symbols@[k],
            ),
        forall|k: Seq<char>|
            final(symbol_table).symbols@.contains_key(k) && !data.symbol_definitions@.contains_key(
                k,
            ) ==> (#[trigger] final(symbol_table).symbols@[k]).definition == old(
                symbol_table,
            ).symbols@[k].definition,
{
    let ghost m0 = file_tree.files@;
    let ghost defs = data.file_definitions@;
    let mut file_defs_applied: usize = 0;
    let mut i: usize = 0;
    while i < data.file_definitions.entries.len()
        invariant
            file_tree.wf(),
            i <= data.file_definitions.entries@.len(),
            file_defs_applied <= i,
            forall|p: Seq<char>|
                #[trigger] file_tree.files@.contains_key(p) == m0.contains_key(p),
            forall|j: int|
                0 <= j < i && m0.contains_key((#[trigger] data.file_definitions.entries@[j]).0@)
                    ==> crate::parser::opt_view(
                    file_tree.files@[data.file_definitions.entries@[j].0@].definition,
                ) == Some(data.file_definitions.entries@[j].1@),
            forall|p: Seq<char>|
                #[trigger] file_tree.files@.contains_key(p) ==> spec_entry_same_core(
                    file_tree.files@[p],
                    m0[p],
                ) && file_tree.files@[p].marks@ == m0[p].marks@,
            forall|p: Seq<char>|
                file_tree.files@.contains_key(p) && !defs.contains_key(p) ==> (
                #[trigger] file_tree.files@[p]).definition == m0[p].definition,
        decreases data.file_definitions.entries@.len() - i,
    {
        let e = &data.file_definitions.entries[i];
        match file_tree.get(e.0.as_str()) {
            Some(mut entry) => {
                entry.definition = Some(e.1.clone());
                let ghost pm = file_tree.files@;
                file_tree.insert(entry);
                proof {
                    data.file_definitions.lemma_entries_in_view();
                    assert(defs.contains_key(e.0@));
                    assert forall|p: Seq<char>| #[trigger] file_tree.files@.contains_key(p) == pm
                        .contains_key(p) by {}
                    assert forall|p: Seq<char>|
                        #[trigger] file_tree.files@.contains_key(p) && p != e.0@ implies file_tree
                        .files@[p] == pm[p] by {}
                    assert forall|j: int|
                        0 <= j < i + 1 && m0.contains_key(
                            (#[trigger] data.file_definitions.entries@[j]).0@,
                        ) implies crate::parser::opt_view(
                        file_tree.files@[data.file_definitions.entries@[j].0@].definition,
                    ) == Some(data.file_definitions.entries@[j].1@) by {
                        if data.file_definitions.entries@[j].0@ != e.0@ {
                            assert(file_tree.files@[data.file_definitions.entries@[j].0@] == pm[
                                data.file_definitions.entries@[j].0@]);
                        }
                    }
                }
                file_defs_applied += 1;
            },
            None => {},
        }
        i += 1;
    }
    let ghost m1 = file_tree.files@;
    let mut marks_applied: usize = 0;
    let mut m: usize = 0;
    while m < data.file_marks.entries.len()
        invariant
            file_tree.wf(),
            m <= data.file_marks.entries@.len(),
            marks_applied <= m,
            forall|p: Seq<char>|
                #[trigger] file_tree.files@.contains_key(p) == m0.contains_key(p),
            forall|p: Seq<char>|
                #[trigger] file_tree.files@.contains_key(p)
                    ==> file_tree.files@[p].definition == m1[p].definition,
            forall|j: int|
                0 <= j < m && m0.contains_key((#[trigger] data.file_marks.entries@[j]).0@) ==> (
                forall|jj: int|
                    0 <= jj < data.file_marks.entries@[j].1@.len() ==> (match spec_mark_of(
                        crate::text::lower_of(
                            (#[trigger] data.file_marks.entries@[j].1@[jj])@,
                        ),
                    ) {
                        Some(mk) => file_tree.files@[data.file_marks.entries@[j].0@].marks@
                            .contains(mk),
                        None => true,
                    })),
            forall|p: Seq<char>|
                #[trigger] file_tree.files@.contains_key(p) ==> spec_entry_same_core(
                    file_tree.files@[p],
                    m1[p],
                ),
            forall|p: Seq<char>|
                file_tree.files@.contains_key(p) && !data.file_marks@.contains_key(p) ==> (
                #[trigger] file_tree.files@[p]).marks@ == m1[p].marks@,
            forall|j: int|
                0 <= j < m && m0.contains_key((#[trigger] data.file_marks.entries@[j]).0@)
                    ==> spec_marks_appended(
                    file_tree.files@[data.file_marks.entries@[j].0@].marks@,
                    m1[data.file_marks.entries@[j].0@].marks@,
                    data.file_marks.entries@[j].1@,
                ),
            forall|j: int|
                m <= j < data.file_marks.entries@.len() && m0.contains_key(
                    (#[trigger] data.file_marks.entries@[j]).0@,
                ) ==> file_tree.files@[data.file_marks.entries@[j].0@].marks@ == m1[
                    data.file_marks.entries@[j].0@].marks@,
        decreases data.file_marks.entries@.len() - m,
    {
        let e = &data.file_marks.entries[m];
        match file_tree.get(e.0.as_str()) {
            Some(mut entry) => {
                let ghost key = data.file_marks.entries@[m as int].0@;
                proof {
                    assert(entry.rel_path@ == key);
                    assert(file_tree.files@[key].marks@ == m1[key].marks@);
                    assert(entry.marks@.take(m1[key].marks@.len() as int) =~= m1[key].marks@);
                }
                let mut mi: usize = 0;
                while mi < e.1.len()
                    invariant
                        mi <= e.1@.len(),
                        entry.rel_path@ == key,
                        key == data.file_marks.entries@[m as int].0@,
                        entry.definition == m1[key].definition,
                        spec_entry_same_core(entry, m1[key]),
                        spec_marks_appended(
                            entry.marks@,
                            m1[key].marks@,
                            data.file_marks.entries@[m as int].1@,
                        ),
                        forall|jj: int|
                            0 <= jj < mi ==> (match spec_mark_of(
                                crate::text::lower_of(
                                    (#[trigger] data.file_marks.entries@[m as int].1@[jj])@,
                                ),
                            ) {
                                Some(mk) => entry.marks@.contains(mk),
                                None => true,
                            }),
                    decreases e.1@.len() - mi,
                {
                    match FileMark::from_str(e.1[mi].as_str()) {
                        Some(mark) => {
                            let mut present = false;
                            let mut pi: usize = 0;
                            while pi < entry.marks.len()
                                invariant
                                    pi <= entry.marks@.len(),
                                    present == exists|q: int|
                                        0 <= q < pi && entry.marks@[q] == mark,
                                decreases entry.marks@.len() - pi,
                            {
                                if entry.marks[pi] == mark {
                                    present = true;
                                    proof {
                                        assert(entry.marks@[pi as int] == mark);
                                    }
                                }
                                pi += 1;
                            }
                            let ghost premarks = entry.marks@;
                            if !present {
                                entry.marks.push(mark);
                            }
                            proof {
                                assert(entry.marks@.contains(mark)) by {
                                    if present {
                                        let q = choose|q: int|
                                            0 <= q < premarks.len() && premarks[q] == mark;
                                        assert(entry.marks@[q] == mark);
                                    } else {
                                        assert(entry.marks@.last() == mark);
                                    }
                                }
                                if !present {
                                    let l = m1[key].marks@.len() as int;
                                    let names = data.file_marks.entries@[m as int].1@;
                                    assert(entry.marks@.take(l) =~= premarks.take(l));
                                    assert forall|i: int|
                                        l <= i < entry.marks@.len() implies exists|j: int|
                                        0 <= j < names.len() && spec_mark_of(
                                            crate::text::lower_of((#[trigger] names[j])@),
                                        ) == Some(#[trigger] entry.marks@[i]) by {
                                        if i < premarks.len() {
                                            assert(entry.marks@[i] == premarks[i]);
                                            let j0 = choose|j0: int|
                                                0 <= j0 < names.len() && spec_mark_of(
                                                    crate::text::lower_of((#[trigger] names[j0])@),
                                                ) == Some(premarks[i]);
                                            assert(spec_mark_of(
                                                crate::text::lower_of(names[j0]@),
                                            ) == Some(entry.marks@[i]));
                                        } else {
                                            assert(entry.marks@[i] == mark);
                                            assert(0 <= mi < names.len() && spec_mark_of(
                                                crate::text::lower_of(names[mi as int]@),
                                            ) == Some(entry.marks@[i]));
                                        }
                                    }
                                    assert forall|a: int, b: int|
                                        0 <= a < b < entry.marks@.len() && l <= b implies entry
                                        .marks@[a] != entry.marks@[b] by {
                                        if b < premarks.len() {
                                            assert(entry.marks@[a] == premarks[a]
                                                && entry.marks@[b] == premarks[b]);
                                        } else {
                                            assert(b == premarks.len());
                                            assert(entry.marks@[b] == mark);
                                            assert(premarks[a] != mark);
                                            assert(entry.marks@[a] == premarks[a]);
                                        }
                                    }
                                    assert(spec_marks_appended(
                                        entry.marks@,
                                        m1[key].marks@,
                                        names,
                                    ));
                                }
                                assert forall|jj: int| 0 <= jj < mi + 1 implies (
                                match spec_mark_of(
                                    crate::text::lower_of(
                                        (#[trigger] data.file_marks.entries@[m as int].1@[jj])@,
                                    ),
                                ) {
                                    Some(mk) => entry.marks@.contains(mk),
                                    None => true,
                                }) by {
                                    if jj < mi {
                                        match spec_mark_of(
                                            crate::text::lower_of(
                                                data.file_marks.entries@[m as int].1@[jj]@,
                                            ),
                                        ) {
                                            Some(mk) => {
                                                let q = choose|q: int|
                                                    0 <= q < premarks.len() && premarks[q] == mk;
                                                assert(entry.marks@.contains(mk)) by {
                                                    if !present {
                                                        assert(entry.marks@[q] == mk);
                                                    }
                                                }
                                            },
                                            None => {},
                                        }
                                    }
                                }
                            }
                        },
                        None => {},
                    }
                    mi += 1;
                }
                let ghost pm = file_tree.files@;
                file_tree.insert(entry);
                proof {
                    data.file_marks.lemma_entries_in_view();
                    assert(data.file_marks@.contains_key(key));
                    assert(file_tree.files@[key] == entry);
                    assert forall|p: Seq<char>| #[trigger] file_tree.files@.contains_key(p) == pm
                        .contains_key(p) by {}
                    assert forall|p: Seq<char>|
                        #[trigger] file_tree.files@.contains_key(p) && p != key implies file_tree
                        .files@[p] == pm[p] by {}
                    assert forall|j: int|
                        0 <= j < m + 1 && m0.contains_key(
                            (#[trigger] data.file_marks.entries@[j]).0@,
                        ) implies (forall|jj: int|
                        0 <= jj < data.file_marks.entries@[j].1@.len() ==> (match spec_mark_of(
                            crate::text::lower_of(
                                (#[trigger] data.file_marks.entries@[j].1@[jj])@,
                            ),
                        ) {
                            Some(mk) => file_tree.files@[data.file_marks.entries@[j].0@].marks@
                                .contains(mk),
                            None => true,
                        })) by {
                        if data.file_marks.entries@[j].0@ != e.0@ {
                            assert(file_tree.files@[data.file_marks.entries@[j].0@] == pm[
                                data.file_marks.entries@[j].0@]);
                        }
                    }
                    assert forall|j: int|
                        0 <= j < m + 1 && m0.contains_key(
                            (#[trigger] data.file_marks.entries@[j]).0@,
                        ) implies spec_marks_appended(
                        file_tree.files@[data.file_marks.entries@[j].0@].marks@,
                        m1[data.file_marks.entries@[j].0@].marks@,
                        data.file_marks.entries@[j].1@,
                    ) by {
                        if data.file_marks.entries@[j].0@ != key {
                            assert(file_tree.files@[data.file_marks.entries@[j].0@] == pm[
                                data.file_marks.entries@[j].0@]);
                        }
                    }
                    assert forall|j: int|
                        m + 1 <= j < data.file_marks.entries@.len() && m0.contains_key(
                            (#[trigger] data.file_marks.entries@[j]).0@,
                        ) implies file_tree.files@[data.file_marks.entries@[j].0@].marks@ == m1[
                        data.file_marks.entries@[j].0@].marks@ by {
                        assert(data.file_marks.entries@[j].0@ != key);
                        assert(file_tree.files@[data.file_marks.entries@[j].0@] == pm[
                            data.file_marks.entries@[j].0@]);
                    }
                }
                marks_applied += 1;
            },
            None => {},
        }
        m += 1;
    }
    let ghost t0 = symbol_table.symbols@;
    let mut sym_defs_applied: usize = 0;
    let mut s: usize = 0;
    while s < data.symbol_definitions.entries.len()
        invariant
            symbol_table.inv(),
            s <= data.symbol_definitions.entries@.len(),
            sym_defs_applied <= s,
            forall|k: Seq<char>|
                #[trigger] symbol_table.symbols@.contains_key(k) == t0.contains_key(k),
            forall|j: int|
                0 <= j < s && t0.contains_key(
                    (#[trigger] data.symbol_definitions.entries@[j]).0@,
                ) ==> crate::parser::opt_view(
                    symbol_table.symbols@[data.symbol_definitions.entries@[j].0@].definition,
                ) == Some(data.symbol_definitions.entries@[j].1@),
            forall|k: Seq<char>|
                #[trigger] symbol_table.symbols@.contains_key(k)
                    ==> crate::symbol::spec_sym_same_but_definition(
                    symbol_table.symbols@[k],
                    t0[k],
                ),
            forall|k: Seq<char>|
                symbol_table.symbols@.contains_key(k)
                    && !data.symbol_definitions@.contains_key(k) ==> (
                #[trigger] symbol_table.symbols@[k]).definition == t0[k].definition,
        decreases data.symbol_definitions.entries@.len() - s,
    {
        let e = &data.symbol_definitions.entries[s];
        proof {
            symbol_table.symbols.lemma_entries_in_view();
        }
        match symbol_table.symbols.get(e.0.as_str()) {
            Some(sym0) => {
                let mut sym = sym0.duplicate();
                sym.definition = Some(e.1.clone());
                let ghost pm = symbol_table.symbols@;
                proof {
                    assert(spec_key(sym.file@, sym.name@) == e.0@);
                }
                symbol_table.insert(sym);
                proof {
                    data.symbol_definitions.lemma_entries_in_view();
                    assert(data.symbol_definitions@.contains_key(e.0@));
                    assert(symbol_table.symbols@[e.0@] == sym);
                    assert(crate::symbol::spec_sym_same_but_definition(sym, pm[e.0@]));
                    assert forall|k: Seq<char>| #[trigger] symbol_table.symbols@.contains_key(k)
                        == pm.contains_key(k) by {}
                    assert forall|k: Seq<char>|
                        #[trigger] symbol_table.symbols@.contains_key(k) && k != e.0@
                            implies symbol_table.symbols@[k] == pm[k] by {}
                    assert forall|j: int|
                        0 <= j < s + 1 && t0.contains_key(
                            (#[trigger] data.symbol_definitions.entries@[j]).0@,
                        ) implies crate::parser::opt_view(
                        symbol_table.symbols@[data.symbol_definitions.entries@[j].0@].definition,
                    ) == Some(data.symbol_definitions.entries@[j].1@) by {
                        if data.symbol_definitions.entries@[j].0@ != e.0@ {
                            assert(symbol_table.symbols@[data.symbol_definitions.entries@[j].0@]
                                == pm[data.symbol_definitions.entries@[j].0@]);
                        }
                    }
                }
                sym_defs_applied += 1;
            },
            None => {},
        }
        s += 1;
    }
    proof {
        data.file_definitions.lemma_entries_in_view();
        data.file_marks.lemma_entries_in_view();
        data.symbol_definitions.lemma_entries_in_view();
        assert forall|p: Seq<char>|
            defs.contains_key(p) && m0.contains_key(p) implies crate::parser::opt_view(
            (#[trigger] file_tree.files@[p]).definition,
        ) == Some(defs[p]@) by {
            let j = choose|j: int|
                0 <= j < data.file_definitions.entries@.len() && (
                #[trigger] data.file_definitions.entries@[j]).0@ == p;
            assert(file_tree.files@.contains_key(p));
            assert(file_tree.files@[p].definition == m1[p].definition);
        }
        assert forall|p: Seq<char>|
            data.file_marks@.contains_key(p) && m0.contains_key(p) implies (forall|j: int|
            0 <= j < data.file_marks@[p]@.len() ==> (match spec_mark_of(
                crate::text::lower_of((#[trigger] data.file_marks@[p]@[j])@),
            ) {
                Some(mk) => file_tree.files@[p].marks@.contains(mk),
                None => true,
            })) by {
            let j = choose|j: int|
                0 <= j < data.file_marks.entries@.len() && (
                #[trigger] data.file_marks.entries@[j]).0@ == p;
        }
        assert forall|k: Seq<char>|
            data.symbol_definitions@.contains_key(k) && t0.contains_key(k)
                implies crate::parser::opt_view(
            (#[trigger] symbol_table.symbols@[k]).definition,
        ) == Some(data.symbol_definitions@[k]@) by {
            let j = choose|j: int|
                0 <= j < data.symbol_definitions.entries@.len() && (
                #[trigger] data.symbol_definitions.entries@[j]).0@ == k;
        }
        assert forall|p: Seq<char>|
            #[trigger] file_tree.files@.contains_key(p) implies spec_entry_same_core(
            file_tree.files@[p],
            m0[p],
        ) by {
            assert(spec_entry_same_core(file_tree.files@[p], m1[p]));
            assert(spec_entry_same_core(m1[p], m0[p]));
        }
        assert forall|p: Seq<char>|
            file_tree.files@.contains_key(p) && !data.file_marks@.contains_key(p) implies (
        #[trigger] file_tree.files@[p]).marks@ == m0[p].marks@ by {
            assert(file_tree.files@[p].marks@ == m1[p].marks@);
            assert(m1[p].marks@ == m0[p].marks@);
        }
        assert forall|p: Seq<char>|
            file_tree.files@.contains_key(p) && data.file_marks@.contains_key(p)
                implies spec_marks_appended(
            (#[trigger] file_tree.files@[p]).marks@,
            m0[p].marks@,
            data.file_marks@[p]@,
        ) by {
            let j = choose|j: int|
                0 <= j < data.file_marks.entries@.len() && (
                #[trigger] data.file_marks.entries@[j]).0@ == p;
            assert(data.file_marks@[p] == data.file_marks.entries@[j].1);
            assert(spec_marks_appended(
                file_tree.files@[p].marks@,
                m1[p].marks@,
                data.file_marks.entries@[j].1@,
            ));
            assert(m1[p].marks@ == m0[p].marks@);
        }
        assert forall|p: Seq<char>|
            file_tree.files@.contains_key(p) && !defs.contains_key(p) implies (
        #[trigger] file_tree.files@[p]).definition == m0[p].definition by {
            assert(file_tree.files@[p].definition == m1[p].definition);
            assert(m1[p].definition == m0[p].definition);
        }
    }
    (file_defs_applied, marks_applied, sym_defs_applied)
}

} // verus!