//! The on-disk index snapshot and its reconciliation against a fresh
//! directory walk. Serialization to bytes happens outside; this module
//! builds snapshots and merges them with live state.
use vstd::prelude::*;
use crate::file_entry::{entry_equiv, FileEntry};
use crate::file_tree::FileTree;
use crate::strmap::{KeySet, StrMap};
use crate::symbol::Symbol;
use crate::symbol_table::{spec_key, SymbolTable};

verus! {

/// Version tag of the snapshot layout. A mismatch means no cache.
pub const CACHE_VERSION: u32 = 1;

/// A versioned snapshot of one project's file tree and symbol table.
pub struct IndexCache {
    pub version: u32,
    pub file_entries: StrMap<FileEntry>,
    pub symbols: StrMap<Symbol>,
    pub symbols_by_name: StrMap<KeySet>,
    pub symbols_by_file: StrMap<KeySet>,
}

/// Stats returned after loading a cached index.
pub struct CacheLoadStats {
    pub cached: usize,
    pub changed: usize,
    pub new_files: usize,
    pub deleted: usize,
    /// Files that need symbol re-extraction (changed and new).
    pub files_to_extract: Vec<String>,
}

/// A fresh path whose cached record carries the same size and
/// modification time.
pub open spec fn spec_cache_hit(
    cachem: Map<Seq<char>, FileEntry>,
    freshm: Map<Seq<char>, FileEntry>,
    p: Seq<char>,
) -> bool {
    cachem.contains_key(p) && freshm.contains_key(p) && cachem[p].size == freshm[p].size
        && cachem[p].modified == freshm[p].modified
}

/// The fresh paths needing re-extraction, in the fresh tree's key order.
pub open spec fn spec_extract_list(
    cachem: Map<Seq<char>, FileEntry>,
    freshm: Map<Seq<char>, FileEntry>,
    keys: Seq<Seq<char>>,
    n: int,
) -> Seq<Seq<char>> {
    keys.take(n).filter(|p: Seq<char>| !spec_cache_hit(cachem, freshm, p))
}

/// The cached paths no longer on disk, among the first `n` cache keys.
pub open spec fn spec_deleted_count(
    freshm: Map<Seq<char>, FileEntry>,
    keys: Seq<Seq<char>>,
    n: int,
) -> int {
    keys.take(n).filter(|p: Seq<char>| !freshm.contains_key(p)).len() as int
}

/// A cached symbol's file is stale: re-extracted or deleted.
pub open spec fn spec_sym_stale(
    cachem: Map<Seq<char>, FileEntry>,
    freshm: Map<Seq<char>, FileEntry>,
    f: Seq<char>,
) -> bool {
    (freshm.contains_key(f) && !spec_cache_hit(cachem, freshm, f)) || (cachem.contains_key(f)
        && !freshm.contains_key(f))
}

/// A cached symbol key is kept: it stands among the cache's symbols and
/// its file is not stale.
pub open spec fn spec_sym_kept(cache: IndexCache, freshm: Map<Seq<char>, FileEntry>, k: Seq<char>) -> bool {
    cache.symbols@.contains_key(k) && !spec_sym_stale(cache.file_entries@, freshm, cache.symbols@[k].file@)
}

proof fn lemma_filter_snoc<A>(s: Seq<A>, pred: spec_fn(A) -> bool, n: int)
    requires
        0 <= n < s.len(),
    ensures
        s.take(n + 1).filter(pred) == if pred(s[n]) {
            s.take(n).filter(pred).push(s[n])
        } else {
            s.take(n).filter(pred)
        },
{
    reveal(Seq::filter);
    assert(s.take(n + 1) =~= s.take(n).push(s[n]));
    assert(s.take(n).push(s[n]).drop_last() =~= s.take(n));
    if pred(s[n]) {
        assert(s.take(n + 1).filter(pred) =~= s.take(n).filter(pred).push(s[n]));
    } else {
        assert(s.take(n + 1).filter(pred) =~= s.take(n).filter(pred));
    }
}

/// Merge a snapshot with a fresh walk into the live tree and table.
/// Every fresh path is installed: a path whose stats match the snapshot
/// keeps its cached record (annotations and extraction flag included),
/// any other fresh path takes the fresh record and is queued for
/// re-extraction. Cached symbols survive exactly when their file is
/// neither re-extracted nor deleted; the secondary indices are rebuilt
/// exactly for the surviving records.
#[verifier::rlimit(100)]
#[verifier::loop_isolation(false)]
pub fn reconcile(
    file_tree: &mut FileTree,
    symbol_table: &mut SymbolTable,
    cache: &IndexCache,
    fresh: &FileTree,
) -> (stats: CacheLoadStats)
    requires
        old(file_tree).wf(),
        old(file_tree).files@ == Map::<Seq<char>, FileEntry>::empty(),
        old(symbol_table).inv(),
        old(symbol_table).symbols@ == Map::<Seq<char>, Symbol>::empty(),
        cache.file_entries.wf(),
        cache.symbols.wf(),
        fresh.wf(),
        forall|p: Seq<char>|
            #[trigger] cache.file_entries@.contains_key(p) ==> cache.file_entries@[p].rel_path@
                == p,
        forall|p: Seq<char>|
            #[trigger] fresh.files@.contains_key(p) ==> fresh.files@[p].rel_path@ == p,
        forall|k: Seq<char>|
            #[trigger] cache.symbols@.contains_key(k) ==> k == spec_key(
                cache.symbols@[k].file@,
                cache.symbols@[k].name@,
            ),
    ensures
        final(file_tree).wf(),
        final(symbol_table).inv(),
        forall|p: Seq<char>|
            #[trigger] final(file_tree).files@.contains_key(p) <==> fresh.files@.contains_key(p),
        forall|p: Seq<char>|
            fresh.files@.contains_key(p) ==> entry_equiv(
                #[trigger] final(file_tree).files@[p],
                if spec_cache_hit(cache.file_entries@, fresh.files@, p) {
                    cache.file_entries@[p]
                } else {
                    fresh.files@[p]
                },
            ),
        forall|k: Seq<char>|
            #[trigger] final(symbol_table).symbols@.contains_key(k) <==> spec_sym_kept(
                *cache,
                fresh.files@,
                k,
            ),
        forall|k: Seq<char>|
            #[trigger] final(symbol_table).symbols@.contains_key(k)
                ==> final(symbol_table).symbols@[k] == cache.symbols@[k],
        stats.files_to_extract.deep_view() == spec_extract_list(
            cache.file_entries@,
            fresh.files@,
            fresh.files.key_seq(),
            fresh.files.key_seq().len() as int,
        ),
        stats.changed + stats.new_files == stats.files_to_extract.deep_view().len(),
        stats.cached + stats.changed + stats.new_files == fresh.files.key_seq().len(),
        stats.deleted == spec_deleted_count(
            fresh.files@,
            cache.file_entries.key_seq(),
            cache.file_entries.key_seq().len() as int,
        ),
{
    let ghost cm = cache.file_entries@;
    let ghost fm = fresh.files@;
    let ghost fkeys = fresh.files.key_seq();
    let mut cached: usize = 0;
    let mut changed: usize = 0;
    let mut new_files: usize = 0;
    let mut files_to_extract: Vec<String> = Vec::new();
    proof {
        fresh.files.lemma_entries_in_view();
        assert(spec_extract_list(cm, fm, fkeys, 0) =~= Seq::<Seq<char>>::empty());
    }
    let mut i: usize = 0;
    while i < fresh.files.entries.len()
        invariant
            file_tree.wf(),
            cache.file_entries.wf(),
            fresh.wf(),
            cm == cache.file_entries@,
            fm == fresh.files@,
            fkeys == fresh.files.key_seq(),
            fkeys.len() == fresh.files.entries@.len(),
            i <= fkeys.len(),
            forall|j: int|
                0 <= j < fkeys.len() ==> fm.contains_key(#[trigger] fkeys[j]) && fm[fkeys[j]]
                    == fresh.files.entries@[j].1,
            forall|p: Seq<char>|
                #[trigger] file_tree.files@.contains_key(p) <==> (fm.contains_key(p) && exists|
                    j: int,
                |
                    0 <= j < i && #[trigger] fkeys[j] == p),
            forall|p: Seq<char>|
                file_tree.files@.contains_key(p) ==> entry_equiv(
                    #[trigger] file_tree.files@[p],
                    if spec_cache_hit(cm, fm, p) {
                        cm[p]
                    } else {
                        fm[p]
                    },
                ),
            files_to_extract.deep_view() == spec_extract_list(cm, fm, fkeys, i as int),
            changed + new_files == files_to_extract.deep_view().len(),
            cached + changed + new_files == i,
        decreases fkeys.len() - i,
    {
        proof {
            lemma_filter_snoc(
                fkeys,
                |p: Seq<char>| !spec_cache_hit(cm, fm, p),
                i as int,
            );
            assert(fkeys[i as int] == fresh.files.entries@[i as int].0@);
        }
        let p = &fresh.files.entries[i].0;
        let fe = &fresh.files.entries[i].1;
        let mut hit = false;
        match cache.file_entries.get(p.as_str()) {
            Some(ce) => {
                if ce.size == fe.size && ce.modified == fe.modified {
                    hit = true;
                    let ghost pm = file_tree.files@;
                    proof {
                        assert(cache.file_entries@.contains_key(p@));
                        assert(cache.file_entries@[p@].rel_path@ == p@);
                        assert(ce.rel_path@ == cm[p@].rel_path@);
                        assert(ce.rel_path@ == p@);
                    }
                    let dup = ce.duplicate();
                    proof {
                        assert(dup.rel_path@ == p@);
                    }
                    file_tree.insert(dup);
                    proof {
                        assert forall|q: Seq<char>|
                            #[trigger] file_tree.files@.contains_key(q) implies entry_equiv(
                            file_tree.files@[q],
                            if spec_cache_hit(cm, fm, q) {
                                cm[q]
                            } else {
                                fm[q]
                            },
                        ) by {
                            if q != p@ {
                                assert(file_tree.files@[q] == pm[q]);
                            }
                        }
                    }
                    cached += 1;
                }
            },
            None => {},
        }
        if !hit {
            let ghost pm = file_tree.files@;
            proof {
                assert(fm.contains_key(fkeys[i as int]));
                assert(fresh.files@.contains_key(fkeys[i as int]));
                assert(fresh.files@[fkeys[i as int]].rel_path@ == fkeys[i as int]);
                assert(fe.rel_path@ == fm[fkeys[i as int]].rel_path@);
                assert(fe.rel_path@ == fkeys[i as int]);
            }
            let dupf = fe.duplicate();
            proof {
                assert(dupf.rel_path@ == fkeys[i as int]);
            }
            file_tree.insert(dupf);
            proof {
                assert forall|q: Seq<char>|
                    #[trigger] file_tree.files@.contains_key(q) implies entry_equiv(
                    file_tree.files@[q],
                    if spec_cache_hit(cm, fm, q) {
                        cm[q]
                    } else {
                        fm[q]
                    },
                ) by {
                    if q != p@ {
                        assert(file_tree.files@[q] == pm[q]);
                    }
                }
            }
            let ghost pre = files_to_extract.deep_view();
            files_to_extract.push(p.clone());
            proof {
                assert(forall|j: int|
                    0 <= j < pre.len() ==> #[trigger] files_to_extract.deep_view()[j] == pre[j]);
                assert(files_to_extract.deep_view() =~= pre.push(p@));
            }
            if cache.file_entries.contains_key(p.as_str()) {
                changed += 1;
            } else {
                new_files += 1;
            }
        }
        proof {
            assert forall|q: Seq<char>|
                #[trigger] file_tree.files@.contains_key(q) implies (fm.contains_key(q) && exists|
                j: int,
            |
                0 <= j < i + 1 && #[trigger] fkeys[j] == q) by {
                if q == fkeys[i as int] {
                    assert(fkeys[i as int] == q);
                } else {
                    let j = choose|j: int| 0 <= j < i && #[trigger] fkeys[j] == q;
                }
            }
            assert forall|q: Seq<char>|
                (fm.contains_key(q) && exists|j: int| 0 <= j < i + 1 && #[trigger] fkeys[j] == q)
                    implies #[trigger] file_tree.files@.contains_key(q) by {}
        }
        i += 1;
    }
    // count deleted cache paths
    let ghost ckeys = cache.file_entries.key_seq();
    let mut deleted: usize = 0;
    proof {
        assert(ckeys.take(0).filter(|p: Seq<char>| !fm.contains_key(p)) =~= Seq::<
            Seq<char>,
        >::empty());
    }
    let mut d: usize = 0;
    while d < cache.file_entries.entries.len()
        invariant
            cm == cache.file_entries@,
            fm == fresh.files@,
            ckeys == cache.file_entries.key_seq(),
            ckeys.len() == cache.file_entries.entries@.len(),
            d <= ckeys.len(),
            deleted == spec_deleted_count(fm, ckeys, d as int),
        decreases ckeys.len() - d,
    {
        proof {
            lemma_filter_snoc(ckeys, |p: Seq<char>| !fm.contains_key(p), d as int);
            assert(ckeys[d as int] == cache.file_entries.entries@[d as int].0@);
        }
        if !fresh.files.contains_key(cache.file_entries.entries[d].0.as_str()) {
            proof {
                ckeys.take(d as int).lemma_filter_len(|p: Seq<char>| !fm.contains_key(p));
            }
            deleted += 1;
        }
        d += 1;
    }
    // keep the symbols of untouched files, rebuilding the indices
    let mut s: usize = 0;
    proof {
        cache.symbols.lemma_entries_in_view();
    }
    while s < cache.symbols.entries.len()
        invariant
            symbol_table.inv(),
            cache.symbols.wf(),
            cache.file_entries.wf(),
            fresh.wf(),
            cm == cache.file_entries@,
            fm == fresh.files@,
            s <= cache.symbols.entries@.len(),
            forall|j: int|
                0 <= j < cache.symbols.entries@.len() ==> cache.symbols@.contains_key(
                    (#[trigger] cache.symbols.entries@[j]).0@,
                ) && cache.symbols@[cache.symbols.entries@[j].0@] == cache.symbols.entries@[j].1,
            forall|k: Seq<char>|
                #[trigger] cache.symbols@.contains_key(k) ==> k == spec_key(
                    cache.symbols@[k].file@,
                    cache.symbols@[k].name@,
                ),
            forall|k: Seq<char>|
                #[trigger] symbol_table.symbols@.contains_key(k) <==> (spec_sym_kept(
                    *cache,
                    fm,
                    k,
                ) && exists|j: int|
                    0 <= j < s && (#[trigger] cache.symbols.entries@[j]).0@ == k),
            forall|k: Seq<char>|
                symbol_table.symbols@.contains_key(k) ==> #[trigger] symbol_table.symbols@[k]
                    == cache.symbols@[k],
        decreases cache.symbols.entries@.len() - s,
    {
        let sym = &cache.symbols.entries[s].1;
        let in_fresh = fresh.files.contains_key(sym.file.as_str());
        let in_cache = cache.file_entries.contains_key(sym.file.as_str());
        let mut stale = false;
        if in_fresh {
            match cache.file_entries.get(sym.file.as_str()) {
                Some(ce) => {
                    match fresh.files.get(sym.file.as_str()) {
                        Some(fe2) => {
                            if !(ce.size == fe2.size && ce.modified == fe2.modified) {
                                stale = true;
                            }
                        },
                        None => {
                            proof {
                                assert(false);
                            }
                        },
                    }
                },
                None => {
                    stale = true;
                },
            }
        } else {
            if in_cache {
                stale = true;
            }
        }
        proof {
            assert(stale == spec_sym_stale(cm, fm, cache.symbols.entries@[s as int].1.file@));
        }
        if !stale {
            let ghost pm = symbol_table.symbols@;
            symbol_table.insert(sym.duplicate());
            proof {
                let k0 = cache.symbols.entries@[s as int].0@;
                assert(cache.symbols@.contains_key(k0));
                assert(cache.symbols@[k0] == cache.symbols.entries@[s as int].1);
                assert(k0 == spec_key(
                    cache.symbols.entries@[s as int].1.file@,
                    cache.symbols.entries@[s as int].1.name@,
                ));
                assert(symbol_table.symbols@ == pm.insert(k0, cache.symbols.entries@[s as int].1));
                assert forall|k: Seq<char>|
                    #[trigger] symbol_table.symbols@.contains_key(k) implies (spec_sym_kept(
                    *cache,
                    fm,
                    k,
                ) && exists|j: int|
                    0 <= j < s + 1 && (#[trigger] cache.symbols.entries@[j]).0@ == k) by {
                    if k == k0 {
                        assert(cache.symbols.entries@[s as int].0@ == k);
                    } else {
                        let j = choose|j: int|
                            0 <= j < s && (#[trigger] cache.symbols.entries@[j]).0@ == k;
                    }
                }
                assert forall|k: Seq<char>|
                    (spec_sym_kept(*cache, fm, k) && exists|j: int|
                        0 <= j < s + 1 && (#[trigger] cache.symbols.entries@[j]).0@ == k)
                    implies #[trigger] symbol_table.symbols@.contains_key(k) by {
                    if k != k0 {
                        let j = choose|j: int|
                            0 <= j < s + 1 && (#[trigger] cache.symbols.entries@[j]).0@ == k;
                        assert(j < s);
                    }
                }
            }
        } else {
            proof {
                assert forall|k: Seq<char>|
                    (spec_sym_kept(*cache, fm, k) && exists|j: int|
                        0 <= j < s + 1 && (#[trigger] cache.symbols.entries@[j]).0@ == k)
                    implies #[trigger] symbol_table.symbols@.contains_key(k) by {
                    let j = choose|j: int|
                        0 <= j < s + 1 && (#[trigger] cache.symbols.entries@[j]).0@ == k;
                    if j == s {
                        assert(cache.symbols@[k] == cache.symbols.entries@[s as int].1);
                        assert(spec_sym_stale(cm, fm, cache.symbols@[k].file@));
                        assert(false);
                    }
                }
            }
        }
        s += 1;
    }
    proof {
        assert(fkeys.take(fkeys.len() as int) =~= fkeys);
        assert(ckeys.take(ckeys.len() as int) =~= ckeys);
        assert forall|k: Seq<char>|
            #[trigger] symbol_table.symbols@.contains_key(k) <==> spec_sym_kept(
            *cache,
            fm,
            k,
        ) by {
            if spec_sym_kept(*cache, fm, k) {
                cache.symbols.lemma_entries_in_view();
            }
        }
        assert forall|p: Seq<char>| #[trigger] file_tree.files@.contains_key(p) <==> fm
            .contains_key(p) by {
            if fm.contains_key(p) {
                fresh.files.lemma_entries_in_view();
                let j = choose|j: int|
                    0 <= j < fresh.files.entries@.len() && (#[trigger] fresh.files.entries@[j]).0@
                        == p;
                assert(fkeys[j] == p);
            }
        }
    }
    CacheLoadStats { cached, changed, new_files, deleted, files_to_extract }
}

/// On a walk that reports every cached path unchanged and nothing else,
/// reconciliation keeps every record, queues nothing for re-extraction,
/// and reports no change: the loaded tree equals the snapshot.
pub proof fn lemma_reconcile_unchanged(
    cachem: Map<Seq<char>, FileEntry>,
    freshm: Map<Seq<char>, FileEntry>,
    fkeys: Seq<Seq<char>>,
    ckeys: Seq<Seq<char>>,
)
    requires
        forall|j: int| 0 <= j < fkeys.len() ==> freshm.contains_key(#[trigger] fkeys[j]),
        forall|j: int| 0 <= j < ckeys.len() ==> freshm.contains_key(#[trigger] ckeys[j]),
        forall|p: Seq<char>| freshm.contains_key(p) ==> spec_cache_hit(cachem, freshm, p),
    ensures
        spec_extract_list(cachem, freshm, fkeys, fkeys.len() as int) == Seq::<Seq<char>>::empty(),
        spec_deleted_count(freshm, ckeys, ckeys.len() as int) == 0,
{
    lemma_filter_none(fkeys, |p: Seq<char>| !spec_cache_hit(cachem, freshm, p));
    lemma_filter_none(ckeys, |p: Seq<char>| !freshm.contains_key(p));
    assert(fkeys.take(fkeys.len() as int) =~= fkeys);
    assert(ckeys.take(ckeys.len() as int) =~= ckeys);
}

proof fn lemma_filter_none<A>(s: Seq<A>, pred: spec_fn(A) -> bool)
    requires
        forall|j: int| 0 <= j < s.len() ==> !pred(#[trigger] s[j]),
    ensures
        s.filter(pred) == Seq::<A>::empty(),
    decreases s.len(),
{
    reveal(Seq::filter);
    if s.len() > 0 {
        assert(forall|j: int| 0 <= j < s.drop_last().len() ==> s.drop_last()[j] == s[j]);
        lemma_filter_none(s.drop_last(), pred);
    }
}

/// Load a snapshot: refuse a version mismatch, otherwise merge it with
/// the fresh walk as `reconcile` says.
pub fn load_index(
    file_tree: &mut FileTree,
    symbol_table: &mut SymbolTable,
    cache: &IndexCache,
    fresh: &FileTree,
) -> (r: Result<CacheLoadStats, String>)
    requires
        old(file_tree).wf(),
        old(file_tree).files@ == Map::<Seq<char>, FileEntry>::empty(),
        old(symbol_table).inv(),
        old(symbol_table).symbols@ == Map::<Seq<char>, Symbol>::empty(),
        cache.file_entries.wf(),
        cache.symbols.wf(),
        fresh.wf(),
        forall|p: Seq<char>|
            #[trigger] cache.file_entries@.contains_key(p) ==> cache.file_entries@[p].rel_path@
                == p,
        forall|p: Seq<char>|
            #[trigger] fresh.files@.contains_key(p) ==> fresh.files@[p].rel_path@ == p,
        forall|k: Seq<char>|
            #[trigger] cache.symbols@.contains_key(k) ==> k == spec_key(
                cache.symbols@[k].file@,
                cache.symbols@[k].name@,
            ),
    ensures
        final(file_tree).wf(),
        final(symbol_table).inv(),
        r is Ok <==> cache.version == CACHE_VERSION,
        r is Err ==> final(file_tree).files@ == old(file_tree).files@
            && final(symbol_table).symbols@ == old(symbol_table).symbols@ && (match r {
            Err(m) => m@ == "Cache version mismatch"@,
            Ok(_) => true,
        }),
        match r {
            Ok(stats) => {
                &&& forall|p: Seq<char>|
                    #[trigger] final(file_tree).files@.contains_key(p) <==> fresh.files@.contains_key(
                        p,
                    )
                &&& forall|p: Seq<char>|
                    fresh.files@.contains_key(p) ==> entry_equiv(
                        #[trigger] final(file_tree).files@[p],
                        if spec_cache_hit(cache.file_entries@, fresh.files@, p) {
                            cache.file_entries@[p]
                        } else {
                            fresh.files@[p]
                        },
                    )
                &&& forall|k: Seq<char>|
                    #[trigger] final(symbol_table).symbols@.contains_key(k) <==> spec_sym_kept(
                        *cache,
                        fresh.files@,
                        k,
                    )
                &&& forall|k: Seq<char>|
                    #[trigger] final(symbol_table).symbols@.contains_key(k)
                        ==> final(symbol_table).symbols@[k] == cache.symbols@[k]
                &&& stats.files_to_extract.deep_view() == spec_extract_list(
                    cache.file_entries@,
                    fresh.files@,
                    fresh.files.key_seq(),
                    fresh.files.key_seq().len() as int,
                )
                &&& stats.changed + stats.new_files == stats.files_to_extract.deep_view().len()
                &&& stats.cached + stats.changed + stats.new_files == fresh.files.key_seq().len()
                &&& stats.deleted == spec_deleted_count(
                    fresh.files@,
                    cache.file_entries.key_seq(),
                    cache.file_entries.key_seq().len() as int,
                )
            },
            Err(_) => true,
        },
{
    if cache.version != CACHE_VERSION {
        return Err(String::from_str("Cache version mismatch"));
    }
    Ok(reconcile(file_tree, symbol_table, cache, fresh))
}

/// Snapshot the live tree and table. The snapshot carries the current
/// version tag and the same records and indices.
#[verifier::loop_isolation(false)]
pub fn save_index(file_tree: &FileTree, symbol_table: &SymbolTable) -> (r: IndexCache)
    requires
        file_tree.wf(),
        symbol_table.inv(),
    ensures
        r.version == CACHE_VERSION,
        r.file_entries.wf(),
        r.symbols.wf(),
        forall|p: Seq<char>|
            #[trigger] r.file_entries@.contains_key(p) <==> file_tree.files@.contains_key(p),
        forall|p: Seq<char>|
            r.file_entries@.contains_key(p) ==> entry_equiv(
                #[trigger] r.file_entries@[p],
                file_tree.files@[p],
            ),
        r.symbols@ == symbol_table.symbols@,
        forall|k: Seq<char>|
            #[trigger] r.symbols@.contains_key(k) ==> k == spec_key(
                r.symbols@[k].file@,
                r.symbols@[k].name@,
            ),
        forall|n: Seq<char>|
            #[trigger] crate::symbol_table::set_keys(r.symbols_by_name@, n)
                == symbol_table.name_keys(n),
        forall|f: Seq<char>|
            #[trigger] crate::symbol_table::set_keys(r.symbols_by_file@, f)
                == symbol_table.file_keys(f),
{
    let mut file_entries: StrMap<FileEntry> = StrMap::new();
    let mut i: usize = 0;
    while i < file_tree.files.entries.len()
        invariant
            file_tree.wf(),
            file_entries.wf(),
            i <= file_tree.files.entries@.len(),
            forall|p: Seq<char>|
                #[trigger] file_entries@.contains_key(p) ==> file_tree.files@.contains_key(p)
                    && entry_equiv(file_entries@[p], file_tree.files@[p]),
            forall|j: int|
                0 <= j < i ==> file_entries@.contains_key(
                    (#[trigger] file_tree.files.entries@[j]).0@,
                ),
        decreases file_tree.files.entries@.len() - i,
    {
        proof {
            file_tree.files.lemma_entries_in_view();
        }
        let e = &file_tree.files.entries[i];
        file_entries.insert(e.0.clone(), e.1.duplicate());
        i += 1;
    }
    let mut symbols: StrMap<Symbol> = StrMap::new();
    let mut j: usize = 0;
    while j < symbol_table.symbols.entries.len()
        invariant
            symbol_table.inv(),
            symbols.wf(),
            j <= symbol_table.symbols.entries@.len(),
            forall|k: Seq<char>|
                #[trigger] symbols@.contains_key(k) ==> symbol_table.symbols@.contains_key(k)
                    && symbols@[k] == symbol_table.symbols@[k],
            forall|jj: int|
                0 <= jj < j ==> symbols@.contains_key(
                    (#[trigger] symbol_table.symbols.entries@[jj]).0@,
                ),
        decreases symbol_table.symbols.entries@.len() - j,
    {
        proof {
            symbol_table.symbols.lemma_entries_in_view();
        }
        let e = &symbol_table.symbols.entries[j];
        symbols.insert(e.0.clone(), e.1.duplicate());
        j += 1;
    }
    proof {
        file_tree.files.lemma_entries_in_view();
        symbol_table.symbols.lemma_entries_in_view();
        assert forall|p: Seq<char>| file_tree.files@.contains_key(p) implies #[trigger] file_entries@.contains_key(p) by {
            let jj = choose|jj: int|
                0 <= jj < file_tree.files.entries@.len() && (#[trigger] file_tree.files.entries@[
                jj]).0@ == p;
        }
        assert forall|k: Seq<char>| symbol_table.symbols@.contains_key(k) implies #[trigger] symbols@.contains_key(k) by {
            let jj = choose|jj: int|
                0 <= jj < symbol_table.symbols.entries@.len() && (
                #[trigger] symbol_table.symbols.entries@[jj]).0@ == k;
        }
        assert(symbols@ =~= symbol_table.symbols@);
    }
    // the secondary indices travel with the snapshot
    let mut by_name: StrMap<KeySet> = StrMap::new();
    let mut n: usize = 0;
    while n < symbol_table.by_name.entries.len()
        invariant
            symbol_table.inv(),
            by_name.wf(),
            n <= symbol_table.by_name.entries@.len(),
            forall|o: Seq<char>|
                #[trigger] by_name@.contains_key(o) ==> symbol_table.by_name@.contains_key(o)
                    && by_name@[o]@.dom() == symbol_table.by_name@[o]@.dom(),
            forall|j: int|
                0 <= j < n ==> by_name@.contains_key(
                    (#[trigger] symbol_table.by_name.entries@[j]).0@,
                ),
        decreases symbol_table.by_name.entries@.len() - n,
    {
        proof {
            symbol_table.by_name.lemma_entries_in_view();
            assert(symbol_table.by_name@.contains_key(
                symbol_table.by_name.entries@[n as int].0@,
            ));
            assert(crate::symbol_table::sets_wf(symbol_table.by_name@));
        }
        let e = &symbol_table.by_name.entries[n];
        by_name.insert(e.0.clone(), e.1.dup_set());
        n += 1;
    }
    let mut by_file: StrMap<KeySet> = StrMap::new();
    let mut m: usize = 0;
    while m < symbol_table.by_file.entries.len()
        invariant
            symbol_table.inv(),
            by_file.wf(),
            m <= symbol_table.by_file.entries@.len(),
            forall|o: Seq<char>|
                #[trigger] by_file@.contains_key(o) ==> symbol_table.by_file@.contains_key(o)
                    && by_file@[o]@.dom() == symbol_table.by_file@[o]@.dom(),
            forall|j: int|
                0 <= j < m ==> by_file@.contains_key(
                    (#[trigger] symbol_table.by_file.entries@[j]).0@,
                ),
        decreases symbol_table.by_file.entries@.len() - m,
    {
        proof {
            symbol_table.by_file.lemma_entries_in_view();
            assert(symbol_table.by_file@.contains_key(
                symbol_table.by_file.entries@[m as int].0@,
            ));
            assert(crate::symbol_table::sets_wf(symbol_table.by_file@));
        }
        let e = &symbol_table.by_file.entries[m];
        by_file.insert(e.0.clone(), e.1.dup_set());
        m += 1;
    }
    proof {
        symbol_table.by_name.lemma_entries_in_view();
        symbol_table.by_file.lemma_entries_in_view();
        assert forall|o: Seq<char>| #[trigger] crate::symbol_table::set_keys(by_name@, o)
            == symbol_table.name_keys(o) by {
            if symbol_table.by_name@.contains_key(o) {
                let j = choose|j: int|
                    0 <= j < symbol_table.by_name.entries@.len() && (
                    #[trigger] symbol_table.by_name.entries@[j]).0@ == o;
                assert(by_name@.contains_key(o));
                assert(crate::symbol_table::set_keys(by_name@, o) =~= symbol_table.name_keys(o));
            } else {
                if by_name@.contains_key(o) {
                    assert(symbol_table.by_name@.contains_key(o));
                }
                assert(crate::symbol_table::set_keys(by_name@, o) =~= symbol_table.name_keys(o));
            }
        }
        assert forall|o: Seq<char>| #[trigger] crate::symbol_table::set_keys(by_file@, o)
            == symbol_table.file_keys(o) by {
            if symbol_table.by_file@.contains_key(o) {
                let j = choose|j: int|
                    0 <= j < symbol_table.by_file.entries@.len() && (
                    #[trigger] symbol_table.by_file.entries@[j]).0@ == o;
                assert(by_file@.contains_key(o));
                assert(crate::symbol_table::set_keys(by_file@, o) =~= symbol_table.file_keys(o));
            } else {
                if by_file@.contains_key(o) {
                    assert(symbol_table.by_file@.contains_key(o));
                }
                assert(crate::symbol_table::set_keys(by_file@, o) =~= symbol_table.file_keys(o));
            }
        }
    }
    IndexCache {
        version: CACHE_VERSION,
        file_entries,
        symbols,
        symbols_by_name: by_name,
        symbols_by_file: by_file,
    }
}

} // verus!
