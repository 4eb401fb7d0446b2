//! The symbol table: a primary store keyed by `file::name` with by-name and
//! by-file secondary indices, kept exactly in step with the primary store.
use vstd::prelude::*;
use crate::strmap::{KeySet, StrMap};
use crate::symbol::Symbol;
use crate::text::{lower_of, spec_contains, str_contains, to_lower};
use vstd::string::StringExecFns;

verus! {

/// The composite primary key of a symbol: `file::name`.
pub open spec fn spec_key(file: Seq<char>, name: Seq<char>) -> Seq<char> {
    file + "::"@ + name
}

/// The keys of live symbols carrying a given name.
pub open spec fn keys_with_name(m: Map<Seq<char>, Symbol>, n: Seq<char>) -> Set<Seq<char>> {
    Set::new(|k: Seq<char>| m.contains_key(k) && m[k].name@ == n)
}

/// The keys of live symbols lying in a given file.
pub open spec fn keys_with_file(m: Map<Seq<char>, Symbol>, f: Seq<char>) -> Set<Seq<char>> {
    Set::new(|k: Seq<char>| m.contains_key(k) && m[k].file@ == f)
}

/// The key sets held by a map of sets (empty for an absent outer key).
pub open spec fn set_keys(m: Map<Seq<char>, KeySet>, o: Seq<char>) -> Set<Seq<char>> {
    if m.contains_key(o) {
        m[o]@.dom()
    } else {
        Set::empty()
    }
}

/// All inner sets are well formed and none is empty.
pub open spec fn sets_wf(m: Map<Seq<char>, KeySet>) -> bool {
    forall|o: Seq<char>|
        m.contains_key(o) ==> (#[trigger] m[o]).wf() && m[o]@.dom() !=
        Set::<Seq<char>>::empty()
}

/// Remove `key` from the set under `outer`, dropping the set when it
/// becomes empty. Other outer keys are untouched.
fn set_map_drop(m: &mut StrMap<KeySet>, outer: &str, key: &str)
    requires
        old(m).wf(),
        sets_wf(old(m)@),
    ensures
        final(m).wf(),
        sets_wf(final(m)@),
        set_keys(final(m)@, outer@) == set_keys(old(m)@, outer@).remove(key@),
        forall|o: Seq<char>| o != outer@ ==> set_keys(final(m)@, o) == set_keys(old(m)@, o),
{
    match m.remove(outer) {
        Some(mut set) => {
            set.take_out(key);
            if set.is_empty() {
                proof {
                    set.lemma_entries_in_view();
                    assert(set@.dom() =~= Set::<Seq<char>>::empty());
                    assert(set_keys(m@, outer@) =~= set_keys(old(m)@, outer@).remove(key@));
                }
            } else {
                proof {
                    set.lemma_entries_in_view();
                    assert(set@.dom().contains(set.key_seq()[0]));
                }
                m.insert(String::from_str(outer), set);
                proof {
                    assert(set_keys(m@, outer@) =~= set_keys(old(m)@, outer@).remove(key@));
                }
            }
        },
        None => {
            proof {
                assert(set_keys(m@, outer@) =~= set_keys(old(m)@, outer@).remove(key@));
            }
        },
    }
}

/// Add `key` to the set under `outer`, creating the set if absent. Other
/// outer keys are untouched.
fn set_map_add(m: &mut StrMap<KeySet>, outer: String, key: String)
    requires
        old(m).wf(),
        sets_wf(old(m)@),
    ensures
        final(m).wf(),
        sets_wf(final(m)@),
        set_keys(final(m)@, outer@) == set_keys(old(m)@, outer@).insert(key@),
        forall|o: Seq<char>| o != outer@ ==> set_keys(final(m)@, o) == set_keys(old(m)@, o),
{
    let ghost kk = key@;
    let ghost oo = outer@;
    let mut set = match m.remove(outer.as_str()) {
        Some(s) => s,
        None => StrMap::new(),
    };
    set.add(key);
    proof {
        set.lemma_entries_in_view();
        assert(set@.dom().contains(kk));
        assert(set@.dom().len() >= 0);
        if set.key_seq().len() == 0 {
            assert(!set@.contains_key(kk));
        }
        assert(set@.dom() != Set::<Seq<char>>::empty());
    }
    m.insert(outer, set);
    proof {
        assert(set_keys(m@, oo) =~= set_keys(old(m)@, oo).insert(kk));
        assert forall|o: Seq<char>| o != oo implies set_keys(m@, o) == set_keys(
            old(m)@,
            o,
        ) by {
            assert(set_keys(m@, o) =~= set_keys(old(m)@, o));
        }
    }
}

/// Thread-unaware symbol table with primary store and two secondary
/// indices maintained under every mutation.
pub struct SymbolTable {
    /// Primary store: keyed by `file::name`.
    pub symbols: StrMap<Symbol>,
    /// Secondary index: symbol name -> set of primary keys.
    pub by_name: StrMap<KeySet>,
    /// Secondary index: file path -> set of primary keys.
    pub by_file: StrMap<KeySet>,
}

impl SymbolTable {
    /// The keys indexed under a name.
    pub open spec fn name_keys(&self, n: Seq<char>) -> Set<Seq<char>> {
        set_keys(self.by_name@, n)
    }

    /// The keys indexed under a file.
    pub open spec fn file_keys(&self, f: Seq<char>) -> Set<Seq<char>> {
        set_keys(self.by_file@, f)
    }

    /// Well-formedness: unique keys in each map, every stored symbol keyed
    /// by `file::name` of its own fields, and each secondary index exactly
    /// the key set derived from the primary store.
    pub open spec fn inv(&self) -> bool {
        &&& self.symbols.wf()
        &&& self.by_name.wf()
        &&& self.by_file.wf()
        &&& sets_wf(self.by_name@)
        &&& sets_wf(self.by_file@)
        &&& forall|k: Seq<char>|
            #[trigger] self.symbols@.contains_key(k) ==> k == spec_key(
                self.symbols@[k].file@,
                self.symbols@[k].name@,
            )
        &&& forall|n: Seq<char>| #[trigger] self.name_keys(n) == keys_with_name(self.symbols@, n)
        &&& forall|f: Seq<char>| #[trigger] self.file_keys(f) == keys_with_file(self.symbols@, f)
    }

    /// Every primary key is reachable through both indices, and every
    /// indexed key resolves to a live record of that name or file.
    pub proof fn lemma_indices_exact(&self)
        requires
            self.inv(),
        ensures
            forall|k: Seq<char>|
                #[trigger] self.symbols@.contains_key(k) ==> self.name_keys(
                    self.symbols@[k].name@,
                ).contains(k) && self.file_keys(self.symbols@[k].file@).contains(k),
            forall|n: Seq<char>, k: Seq<char>|
                #[trigger] self.name_keys(n).contains(k) ==> self.symbols@.contains_key(k)
                    && self.symbols@[k].name@ == n,
            forall|f: Seq<char>, k: Seq<char>|
                #[trigger] self.file_keys(f).contains(k) ==> self.symbols@.contains_key(k)
                    && self.symbols@[k].file@ == f,
    {
    }

    pub fn new() -> (r: Self)
        ensures
            r.inv(),
            r.symbols@ == Map::<Seq<char>, Symbol>::empty(),
            r.by_name@ == Map::<Seq<char>, KeySet>::empty(),
            r.by_file@ == Map::<Seq<char>, KeySet>::empty(),
    {
        let r = SymbolTable { symbols: StrMap::new(), by_name: StrMap::new(), by_file: StrMap::new() };
        proof {
            assert forall|n: Seq<char>| #[trigger] r.name_keys(n) == keys_with_name(
                r.symbols@,
                n,
            ) by {
                assert(r.name_keys(n) =~= keys_with_name(r.symbols@, n));
            }
            assert forall|f: Seq<char>| #[trigger] r.file_keys(f) == keys_with_file(
                r.symbols@,
                f,
            ) by {
                assert(r.file_keys(f) =~= keys_with_file(r.symbols@, f));
            }
        }
        r
    }

    /// The composite primary key for a symbol.
    pub fn make_key(file: &str, name: &str) -> (r: String)
        ensures
            r@ == spec_key(file@, name@),
    {
        String::from_str(file).concat("::").concat(name)
    }

    /// Upsert by primary key, keeping both indices exact.
    pub fn insert(&mut self, symbol: Symbol)
        requires
            old(self).inv(),
        ensures
            final(self).inv(),
            final(self).symbols@ == old(self).symbols@.insert(
                spec_key(symbol.file@, symbol.name@),
                symbol,
            ),
    {
        let ghost t0 = *self;
        let ghost sym = symbol;
        let name = symbol.name.clone();
        let file = symbol.file.clone();
        let key = Self::make_key(file.as_str(), name.as_str());
        let ghost kk = key@;
        let ghost m0 = self.symbols@;

        // When overwriting a key whose record carried another name or
        // file, prune the stale index entries first.
        let prev: Option<(String, String)> = match self.symbols.get(key.as_str()) {
            Some(s) => Some((s.name.clone(), s.file.clone())),
            None => None,
        };
        match prev {
            Some((pname, pfile)) => {
                proof {
                    assert(t0.name_keys(pname@) == keys_with_name(m0, pname@));
                    assert(t0.file_keys(pfile@) == keys_with_file(m0, pfile@));
                }
                set_map_drop(&mut self.by_name, pname.as_str(), key.as_str());
                set_map_drop(&mut self.by_file, pfile.as_str(), key.as_str());
                proof {
                    assert forall|n: Seq<char>| #[trigger] set_keys(self.by_name@, n)
                        == keys_with_name(m0.remove(kk), n) by {
                        assert(t0.name_keys(n) == keys_with_name(m0, n));
                        assert(set_keys(self.by_name@, n) =~= keys_with_name(m0.remove(kk), n));
                    }
                    assert forall|f: Seq<char>| #[trigger] set_keys(self.by_file@, f)
                        == keys_with_file(m0.remove(kk), f) by {
                        assert(t0.file_keys(f) == keys_with_file(m0, f));
                        assert(set_keys(self.by_file@, f) =~= keys_with_file(m0.remove(kk), f));
                    }
                }
            },
            None => {
                proof {
                    assert forall|n: Seq<char>| #[trigger] set_keys(self.by_name@, n)
                        == keys_with_name(m0.remove(kk), n) by {
                        assert(t0.name_keys(n) == keys_with_name(m0, n));
                        assert(set_keys(self.by_name@, n) =~= keys_with_name(m0.remove(kk), n));
                    }
                    assert forall|f: Seq<char>| #[trigger] set_keys(self.by_file@, f)
                        == keys_with_file(m0.remove(kk), f) by {
                        assert(t0.file_keys(f) == keys_with_file(m0, f));
                        assert(set_keys(self.by_file@, f) =~= keys_with_file(m0.remove(kk), f));
                    }
                }
            },
        }
        let ghost bn1 = self.by_name@;
        let ghost bf1 = self.by_file@;
        set_map_add(&mut self.by_name, name, key.clone());
        set_map_add(&mut self.by_file, file, key.clone());
        self.symbols.insert(key, symbol);
        proof {
            let m1 = m0.insert(kk, sym);
            assert(self.symbols@ == m1);
            assert forall|k: Seq<char>| #[trigger] self.symbols@.contains_key(k) implies k
                == spec_key(self.symbols@[k].file@, self.symbols@[k].name@) by {
                if k != kk {
                    assert(m0.contains_key(k));
                }
            }
            assert forall|n: Seq<char>| #[trigger] self.name_keys(n) == keys_with_name(
                self.symbols@,
                n,
            ) by {
                assert(set_keys(bn1, n) == keys_with_name(m0.remove(kk), n));
                assert(self.name_keys(n) =~= keys_with_name(self.symbols@, n));
            }
            assert forall|f: Seq<char>| #[trigger] self.file_keys(f) == keys_with_file(
                self.symbols@,
                f,
            ) by {
                assert(set_keys(bf1, f) == keys_with_file(m0.remove(kk), f));
                assert(self.file_keys(f) =~= keys_with_file(self.symbols@, f));
            }
        }
    }

    /// Remove every symbol lying in `file`, pruning both indices.
    pub fn remove_file(&mut self, file: &str)
        requires
            old(self).inv(),
        ensures
            final(self).inv(),
            final(self).symbols@ == old(self).symbols@.remove_keys(
                keys_with_file(old(self).symbols@, file@),
            ),
    {
        let ghost t0 = *self;
        let ghost m0 = self.symbols@;
        let ghost victims = keys_with_file(m0, file@);
        match self.by_file.remove(file) {
            None => {
                proof {
                    assert(t0.file_keys(file@) == keys_with_file(m0, file@));
                    assert(victims =~= Set::<Seq<char>>::empty());
                    assert(self.symbols@ =~= m0.remove_keys(victims));
                    assert forall|f: Seq<char>| #[trigger] self.file_keys(f) == keys_with_file(
                        self.symbols@,
                        f,
                    ) by {
                        assert(t0.file_keys(f) == keys_with_file(m0, f));
                        assert(self.file_keys(f) =~= keys_with_file(self.symbols@, f));
                    }
                    assert forall|n: Seq<char>| #[trigger] self.name_keys(n) == keys_with_name(
                        self.symbols@,
                        n,
                    ) by {
                        assert(t0.name_keys(n) == keys_with_name(m0, n));
                    }
                }
            },
            Some(keys) => {
                proof {
                    assert(t0.file_keys(file@) == keys_with_file(m0, file@));
                }
                let klist = keys.keys();
                let ghost kseq = keys.key_seq();
                proof {
                    keys.lemma_entries_in_view();
                    assert(keys@.dom() == victims);
                    assert forall|j: int| 0 <= j < kseq.len() implies victims.contains(
                        #[trigger] kseq[j],
                    ) by {
                        assert(keys@.contains_key(keys.entries@[j].0@));
                    }
                    assert forall|x: int, y: int| 0 <= x < y < kseq.len() implies kseq[x]
                        != kseq[y] by {
                        assert(keys.entries@[x].0@ != keys.entries@[y].0@);
                    }
                    assert forall|k: Seq<char>| victims.contains(k) implies exists|j: int|
                        0 <= j < kseq.len() && #[trigger] kseq[j] == k by {
                        assert(keys@.contains_key(k));
                        let j = choose|j: int|
                            0 <= j < keys.entries@.len() && (#[trigger] keys.entries@[j]).0@ == k;
                        assert(kseq[j] == k);
                    }
                    assert(kseq.take(0).to_set() =~= Set::<Seq<char>>::empty());
                    assert(self.symbols@ =~= m0.remove_keys(kseq.take(0).to_set()));
                    assert forall|n: Seq<char>| #[trigger] self.name_keys(n) == keys_with_name(
                        self.symbols@,
                        n,
                    ) by {
                        assert(t0.name_keys(n) == keys_with_name(m0, n));
                        assert(self.name_keys(n) =~= keys_with_name(self.symbols@, n));
                    }
                    assert forall|f: Seq<char>| f != file@ implies #[trigger] set_keys(
                        self.by_file@,
                        f,
                    ) == keys_with_file(m0, f) by {
                        assert(t0.file_keys(f) == keys_with_file(m0, f));
                    }
                }
                let mut i: usize = 0;
                while i < klist.len()
                    invariant
                        klist.deep_view() == kseq,
                        i <= kseq.len(),
                        victims == keys_with_file(m0, file@),
                        forall|x: int, y: int| 0 <= x < y < kseq.len() ==> kseq[x] != kseq[y],
                        forall|j: int| 0 <= j < kseq.len() ==> victims.contains(#[trigger] kseq[j]),
                        forall|k: Seq<char>|
                            victims.contains(k) ==> exists|j: int|
                                0 <= j < kseq.len() && #[trigger] kseq[j] == k,
                        self.symbols.wf(),
                        self.by_name.wf(),
                        self.by_file.wf(),
                        sets_wf(self.by_name@),
                        sets_wf(self.by_file@),
                        self.symbols@ == m0.remove_keys(kseq.take(i as int).to_set()),
                        self.by_file@ == t0.by_file@.remove(file@),
                        forall|k: Seq<char>|
                            #[trigger] self.symbols@.contains_key(k) ==> k == spec_key(
                                self.symbols@[k].file@,
                                self.symbols@[k].name@,
                            ),
                        forall|n: Seq<char>|
                            #[trigger] self.name_keys(n) == keys_with_name(self.symbols@, n),
                        forall|f: Seq<char>| f != file@ ==> #[trigger] set_keys(self.by_file@, f)
                            == keys_with_file(m0, f),
                    decreases klist.len() - i,
                {
                    let ghost tcur = *self;
                    let ghost prevm = self.symbols@;
                    let key = &klist[i];
                    proof {
                        assert(klist.deep_view()[i as int] == key@);
                        assert(victims.contains(kseq[i as int]));
                        assert(!kseq.take(i as int).to_set().contains(kseq[i as int]));
                        assert(prevm.contains_key(key@));
                        assert(m0.contains_key(key@) && m0[key@].file@ == file@);
                        assert(prevm[key@] == m0[key@]);
                    }
                    let removed = self.symbols.remove(key.as_str());
                    match removed {
                        Some(sym) => {
                            proof {
                                assert(tcur.name_keys(sym.name@) == keys_with_name(
                                    prevm,
                                    sym.name@,
                                ));
                            }
                            set_map_drop(&mut self.by_name, sym.name.as_str(), key.as_str());
                            proof {
                                assert forall|n: Seq<char>| #[trigger] self.name_keys(n)
                                    == keys_with_name(self.symbols@, n) by {
                                    assert(tcur.name_keys(n) == keys_with_name(prevm, n));
                                    assert(self.name_keys(n) =~= keys_with_name(
                                        self.symbols@,
                                        n,
                                    ));
                                }
                            }
                        },
                        None => {
                            proof {
                                assert(false);
                            }
                        },
                    }
                    proof {
                        assert(kseq.take(i + 1 as int) =~= kseq.take(i as int).push(
                            kseq[i as int],
                        ));
                        assert forall|x: Seq<char>| #[trigger] kseq.take(i + 1 as int).to_set()
                            .contains(x) implies kseq.take(i as int).to_set().insert(
                            kseq[i as int],
                        ).contains(x) by {
                            let j = choose|j: int|
                                0 <= j < i + 1 && #[trigger] kseq.take(i + 1 as int)[j] == x;
                            if j < i {
                                assert(kseq.take(i as int)[j] == x);
                                assert(kseq.take(i as int).contains(x));
                            }
                        }
                        assert forall|x: Seq<char>| kseq.take(i as int).to_set().insert(
                            kseq[i as int],
                        ).contains(x) implies #[trigger] kseq.take(i + 1 as int).to_set()
                            .contains(x) by {
                            if x == kseq[i as int] {
                                assert(kseq.take(i + 1 as int)[i as int] == x);
                            } else {
                                let j = choose|j: int|
                                    0 <= j < i && #[trigger] kseq.take(i as int)[j] == x;
                                assert(kseq.take(i + 1 as int)[j] == x);
                            }
                        }
                        assert(kseq.take(i + 1 as int).to_set() =~= kseq.take(
                            i as int,
                        ).to_set().insert(kseq[i as int]));
                        assert(self.symbols@ =~= m0.remove_keys(kseq.take(i + 1 as int).to_set()));
                        assert forall|f: Seq<char>| f != file@ implies #[trigger] set_keys(
                            self.by_file@,
                            f,
                        ) == keys_with_file(m0, f) by {}
                    }
                    i += 1;
                }
                proof {
                    assert(kseq.take(kseq.len() as int) =~= kseq);
                    assert forall|x: Seq<char>| #[trigger] victims.contains(x) implies kseq.to_set()
                        .contains(x) by {
                        let j = choose|j: int| 0 <= j < kseq.len() && #[trigger] kseq[j] == x;
                        assert(kseq.contains(x));
                    }
                    assert forall|x: Seq<char>| #[trigger] kseq.to_set().contains(x) implies victims
                        .contains(x) by {
                        let j = choose|j: int| 0 <= j < kseq.len() && #[trigger] kseq[j] == x;
                        assert(victims.contains(kseq[j]));
                    }
                    assert(kseq.to_set() =~= victims);
                    assert(self.symbols@ =~= m0.remove_keys(victims));
                    assert forall|f: Seq<char>| #[trigger] self.file_keys(f) == keys_with_file(
                        self.symbols@,
                        f,
                    ) by {
                        if f == file@ {
                            assert forall|k: Seq<char>| !keys_with_file(
                                self.symbols@,
                                f,
                            ).contains(k) by {
                                if self.symbols@.contains_key(k) && self.symbols@[k].file@ == f {
                                    assert(m0.contains_key(k) && m0[k].file@ == file@);
                                    assert(victims.contains(k));
                                }
                            }
                            assert(self.file_keys(f) =~= keys_with_file(self.symbols@, f));
                        } else {
                            assert forall|k: Seq<char>| keys_with_file(m0, f).contains(k)
                                <==> keys_with_file(self.symbols@, f).contains(k) by {
                                if m0.contains_key(k) && m0[k].file@ == f {
                                    assert(!victims.contains(k));
                                }
                            }
                            assert(keys_with_file(self.symbols@, f) =~= keys_with_file(m0, f));
                        }
                    }
                }
            },
        }
    }

    /// Point lookup by file and name, handing back a copy of the record.
    pub fn get(&self, file: &str, name: &str) -> (r: Option<Symbol>)
        ensures
            match r {
                Some(s) => self.symbols@.contains_key(spec_key(file@, name@)) && s
                    == self.symbols@[spec_key(file@, name@)],
                None => !self.symbols@.contains_key(spec_key(file@, name@)),
            },
    {
        let key = Self::make_key(file, name);
        match self.symbols.get(key.as_str()) {
            Some(s) => Some(s.duplicate()),
            None => None,
        }
    }

    /// Whether a symbol's name matches a query, case-insensitively.
    pub open spec fn spec_matches_query(s: Symbol, q: Seq<char>) -> bool {
        spec_contains(lower_of(s.name@), lower_of(q))
    }

    /// Case-insensitive substring search over all symbol names, capped at
    /// `limit`, in the primary store's insertion order.
    pub fn search(&self, query: &str, limit: usize) -> (r: Vec<Symbol>)
        ensures
            ({
                let all = self.symbols.entries@.map_values(|e: (String, Symbol)| e.1);
                let m = all.filter(|s: Symbol| Self::spec_matches_query(s, query@));
                r@ == m.take(if limit <= m.len() {
                    limit as int
                } else {
                    m.len() as int
                })
            }),
    {
        let ghost all = self.symbols.entries@.map_values(|e: (String, Symbol)| e.1);
        let ghost pred = |s: Symbol| Self::spec_matches_query(s, query@);
        let query_lower = to_lower(query);
        let mut results: Vec<Symbol> = Vec::new();
        let mut i: usize = 0;
        if limit == 0 {
            proof {
                assert(results@ =~= all.filter(pred).take(0));
            }
            return results;
        }
        while i < self.symbols.entries.len()
            invariant
                all == self.symbols.entries@.map_values(|e: (String, Symbol)| e.1),
                pred == |s: Symbol| Self::spec_matches_query(s, query@),
                query_lower@ == lower_of(query@),
                i <= all.len(),
                results@ == all.take(i as int).filter(pred),
                results@.len() < limit,
                0 < limit,
            decreases all.len() - i,
        {
            let ghost prefix = all.take(i as int);
            let name_lower = to_lower(self.symbols.entries[i].1.name.as_str());
            let hit = str_contains(name_lower.as_str(), query_lower.as_str());
            proof {
                assert(all[i as int] == self.symbols.entries@[i as int].1);
                assert(all.take(i + 1 as int) =~= prefix.push(all[i as int]));
                reveal(Seq::filter);
                assert(prefix.push(all[i as int]).drop_last() =~= prefix);
                assert(prefix.push(all[i as int]).filter(pred) == if pred(all[i as int]) {
                    prefix.filter(pred).push(all[i as int])
                } else {
                    prefix.filter(pred)
                });
            }
            if hit {
                results.push(self.symbols.entries[i].1.duplicate());
                if results.len() >= limit {
                    proof {
                        let m = all.filter(pred);
                        
                        Seq::filter_distributes_over_add(
                            all.take(i + 1 as int),
                            all.skip(i + 1 as int),
                            pred,
                        );
                        assert(all.take(i + 1 as int) + all.skip(i + 1 as int) =~= all);
                        assert(m == all.take(i + 1 as int).filter(pred) + all.skip(
                            i + 1 as int,
                        ).filter(pred));
                        assert(results@.len() == limit);
                        assert(m.take(limit as int) =~= results@);
                    }
                    return results;
                }
            }
            i += 1;
        }
        proof {
            let m = all.filter(pred);
            assert(all.take(all.len() as int) =~= all);
            assert(results@ == m);
            assert(m.take(m.len() as int) =~= m);
        }
        results
    }

    /// All symbols lying in `file`, in the by-file index's order.
    pub fn list_by_file(&self, file: &str) -> (r: Vec<Symbol>)
        requires
            self.inv(),
        ensures
            self.by_file@.contains_key(file@) ==> ({
                let ks = self.by_file@[file@].key_seq();
                r@.len() == ks.len() && forall|j: int|
                    0 <= j < r@.len() ==> #[trigger] r@[j] == self.symbols@[ks[j]]
            }),
            !self.by_file@.contains_key(file@) ==> r@ == Seq::<Symbol>::empty(),
    {
        let mut r: Vec<Symbol> = Vec::new();
        match self.by_file.get(file) {
            Some(keys) => {
                let ghost kseq = keys.key_seq();
                proof {
                    keys.lemma_entries_in_view();
                    assert forall|j: int| 0 <= j < kseq.len() implies self.symbols@.contains_key(
                        #[trigger] kseq[j],
                    ) by {
                        assert(keys@.contains_key(keys.entries@[j].0@));
                        assert(self.file_keys(file@).contains(kseq[j]));
                    }
                }
                let mut i: usize = 0;
                while i < keys.entries.len()
                    invariant
                        self.inv(),
                        self.by_file@.contains_key(file@),
                        keys == self.by_file@[file@],
                        kseq == keys.key_seq(),
                        i <= kseq.len(),
                        forall|j: int|
                            0 <= j < kseq.len() ==> self.symbols@.contains_key(#[trigger] kseq[j]),
                        r@.len() == i,
                        forall|j: int| 0 <= j < i ==> r@[j] == self.symbols@[kseq[j]],
                    decreases keys.entries@.len() - i,
                {
                    let key = &keys.entries[i].0;
                    proof {
                        assert(keys.entries@[i as int].0@ == kseq[i as int]);
                        assert(self.symbols@.contains_key(kseq[i as int]));
                    }
                    match self.symbols.get(key.as_str()) {
                        Some(s) => {
                            r.push(s.duplicate());
                        },
                        None => {
                            proof {
                                assert(false);
                            }
                        },
                    }
                    i += 1;
                }
            },
            None => {
                proof {
                    assert(r@ =~= Seq::<Symbol>::empty());
                }
            },
        }
        r
    }

    /// Copies of all symbols, in the primary store's insertion order.
    pub fn all_symbols(&self) -> (r: Vec<Symbol>)
        ensures
            r@ == self.symbols.entries@.map_values(|e: (String, Symbol)| e.1),
    {
        let mut r: Vec<Symbol> = Vec::new();
        let mut i: usize = 0;
        while i < self.symbols.entries.len()
            invariant
                i <= self.symbols.entries@.len(),
                r@.len() == i,
                forall|j: int| 0 <= j < i ==> r@[j] == self.symbols.entries@[j].1,
            decreases self.symbols.entries@.len() - i,
        {
            r.push(self.symbols.entries[i].1.duplicate());
            i += 1;
        }
        proof {
            assert(r@ =~= self.symbols.entries@.map_values(|e: (String, Symbol)| e.1));
        }
        r
    }

    /// Number of live symbols.
    pub fn len(&self) -> (r: usize)
        ensures
            r == self.symbols.key_seq().len(),
    {
        self.symbols.len()
    }
}

} // verus!
