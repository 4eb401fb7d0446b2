//! An association map from strings to values with unique keys, viewed as a
//! `Map<Seq<char>, V>`. Insertion order of keys is preserved and exposed.
use vstd::prelude::*;
use crate::text::str_eq;

verus! {

/// Index of the first entry whose key reads `k`, or -1 when absent.
pub open spec fn assoc_index<V>(s: Seq<(String, V)>, k: Seq<char>) -> int
    decreases s.len(),
{
    if s.len() == 0 {
        -1
    } else if s[0].0@ == k {
        0
    } else {
        let r = assoc_index(s.drop_first(), k);
        if r < 0 {
            -1
        } else {
            r + 1
        }
    }
}

pub proof fn lemma_assoc_index_spec<V>(s: Seq<(String, V)>, k: Seq<char>)
    ensures
        -1 <= assoc_index(s, k) < s.len(),
        assoc_index(s, k) >= 0 ==> s[assoc_index(s, k)].0@ == k,
        assoc_index(s, k) == -1 ==> forall|j: int| 0 <= j < s.len() ==> s[j].0@ != k,
    decreases s.len(),
{
    if s.len() > 0 && s[0].0@ != k {
        lemma_assoc_index_spec(s.drop_first(), k);
        if assoc_index(s, k) == -1 {
            assert forall|j: int| 0 <= j < s.len() implies s[j].0@ != k by {
                if j > 0 {
                    assert(s.drop_first()[j - 1] == s[j]);
                }
            }
        }
    }
}

pub proof fn lemma_assoc_index_at<V>(s: Seq<(String, V)>, k: Seq<char>, i: int)
    requires
        0 <= i < s.len(),
        s[i].0@ == k,
        forall|j: int| 0 <= j < i ==> s[j].0@ != k,
    ensures
        assoc_index(s, k) == i,
    decreases i,
{
    if i > 0 {
        lemma_assoc_index_at(s.drop_first(), k, i - 1);
    }
}

/// A map from strings to values, stored as a vector of entries whose keys
/// are pairwise distinct.
pub struct StrMap<V> {
    pub entries: Vec<(String, V)>,
}

/// A set of strings, stored as a `StrMap` with unit values.
pub type KeySet = StrMap<()>;

impl<V> View for StrMap<V> {
    type V = Map<Seq<char>, V>;

    open spec fn view(&self) -> Map<Seq<char>, V> {
        Map::new(
            |k: Seq<char>| assoc_index(self.entries@, k) >= 0,
            |k: Seq<char>| self.entries@[assoc_index(self.entries@, k)].1,
        )
    }
}

impl<V> StrMap<V> {
    /// Keys are pairwise distinct.
    pub open spec fn wf(&self) -> bool {
        forall|i: int, j: int|
            0 <= i < j < self.entries@.len() ==> self.entries@[i].0@ != self.entries@[j].0@
    }

    /// The keys, in insertion order.
    pub open spec fn key_seq(&self) -> Seq<Seq<char>> {
        self.entries@.map_values(|e: (String, V)| e.0@)
    }

    /// Every stored entry is in the view, and every key of the view names
    /// a stored entry.
    pub proof fn lemma_entries_in_view(&self)
        requires
            self.wf(),
        ensures
            forall|i: int|
                0 <= i < self.entries@.len() ==> self@.contains_key(#[trigger] self.entries@[i].0@)
                    && self@[self.entries@[i].0@] == self.entries@[i].1,
            forall|k: Seq<char>|
                self@.contains_key(k) ==> exists|i: int|
                    0 <= i < self.entries@.len() && (#[trigger] self.entries@[i]).0@ == k,
    {
        assert forall|i: int| 0 <= i < self.entries@.len() implies self@.contains_key(
            #[trigger] self.entries@[i].0@,
        ) && self@[self.entries@[i].0@] == self.entries@[i].1 by {
            let k = self.entries@[i].0@;
            assert forall|j: int| 0 <= j < i implies self.entries@[j].0@ != k by {}
            lemma_assoc_index_at(self.entries@, k, i);
        }
        assert forall|k: Seq<char>| self@.contains_key(k) implies exists|i: int|
            0 <= i < self.entries@.len() && (#[trigger] self.entries@[i]).0@ == k by {
            lemma_assoc_index_spec(self.entries@, k);
            let i = assoc_index(self.entries@, k);
            assert(0 <= i < self.entries@.len() && self.entries@[i].0@ == k);
        }
    }

    pub fn new() -> (r: Self)
        ensures
            r.wf(),
            r@ == Map::<Seq<char>, V>::empty(),
            r.key_seq() == Seq::<Seq<char>>::empty(),
    {
        let r = StrMap { entries: Vec::new() };
        proof {
            assert(r@ =~= Map::<Seq<char>, V>::empty());
            assert(r.key_seq() =~= Seq::<Seq<char>>::empty());
        }
        r
    }

    /// Index of the entry holding `k`, when present.
    fn find_idx(&self, k: &str) -> (r: Option<usize>)
        ensures
            match r {
                Some(i) => i < self.entries@.len() && self.entries@[i as int].0@ == k@ && forall|
                    j: int,
                |
                    0 <= j < i ==> self.entries@[j].0@ != k@,
                None => forall|j: int| 0 <= j < self.entries@.len() ==> self.entries@[j].0@ != k@,
            },
    {
        let mut i: usize = 0;
        while i < self.entries.len()
            invariant
                i <= self.entries@.len(),
                forall|j: int| 0 <= j < i ==> self.entries@[j].0@ != k@,
            decreases self.entries@.len() - i,
        {
            if str_eq(self.entries[i].0.as_str(), k) {
                return Some(i);
            }
            i += 1;
        }
        None
    }

    /// Point lookup.
    pub fn get(&self, k: &str) -> (r: Option<&V>)
        ensures
            match r {
                Some(v) => self@.contains_key(k@) && *v == self@[k@],
                None => !self@.contains_key(k@),
            },
    {
        match self.find_idx(k) {
            Some(i) => {
                proof {
                    lemma_assoc_index_at(self.entries@, k@, i as int);
                }
                Some(&self.entries[i].1)
            },
            None => {
                proof {
                    lemma_assoc_index_spec(self.entries@, k@);
                }
                None
            },
        }
    }

    /// Whether `k` is present.
    pub fn contains_key(&self, k: &str) -> (r: bool)
        ensures
            r == self@.contains_key(k@),
    {
        self.get(k).is_some()
    }

    /// Upsert: replace the value in place when the key is present, append
    /// the entry otherwise.
    pub fn insert(&mut self, k: String, v: V)
        requires
            old(self).wf(),
        ensures
            final(self).wf(),
            final(self)@ == old(self)@.insert(k@, v),
            final(self).key_seq() == if old(self)@.contains_key(k@) {
                old(self).key_seq()
            } else {
                old(self).key_seq().push(k@)
            },
    {
        let ghost olds = self.entries@;
        proof {
            lemma_assoc_index_spec(olds, k@);
        }
        match self.find_idx(k.as_str()) {
            Some(i) => {
                proof {
                    lemma_assoc_index_at(olds, k@, i as int);
                }
                let ghost kk = k@;
                let ghost vv = v;
                self.entries.remove(i);
                self.entries.insert(i, (k, v));
                proof {
                    assert(self.entries@ =~= olds.update(i as int, self.entries@[i as int]));
                    self.lemma_after_update(olds, i as int, kk, vv);
                    assert(self.key_seq() =~= old(self).key_seq());
                }
            },
            None => {
                let ghost kk = k@;
                let ghost vv = v;
                self.entries.push((k, v));
                proof {
                    self.lemma_after_push(olds, kk, vv);
                    assert(self.key_seq() =~= old(self).key_seq().push(kk));
                }
            },
        }
    }

    proof fn lemma_after_update(&self, olds: Seq<(String, V)>, i: int, k: Seq<char>, v: V)
        requires
            forall|x: int, y: int| 0 <= x < y < olds.len() ==> olds[x].0@ != olds[y].0@,
            0 <= i < olds.len(),
            olds[i].0@ == k,
            self.entries@.len() == olds.len(),
            forall|j: int| 0 <= j < olds.len() && j != i ==> self.entries@[j] == olds[j],
            self.entries@[i].1 == v,
            self.entries@[i].0@ == k,
        ensures
            self.wf(),
            self@ == Map::new(
                |q: Seq<char>| assoc_index(olds, q) >= 0,
                |q: Seq<char>| olds[assoc_index(olds, q)].1,
            ).insert(k, v),
    {
        let s = self.entries@;
        let oldmap = Map::new(
            |q: Seq<char>| assoc_index(olds, q) >= 0,
            |q: Seq<char>| olds[assoc_index(olds, q)].1,
        );
        assert forall|x: int, y: int| 0 <= x < y < s.len() implies s[x].0@ != s[y].0@ by {
            assert(olds[x].0@ != olds[y].0@);
            if x == i {
                assert(s[x].0@ == k && s[y] == olds[y]);
                assert(olds[y].0@ != olds[i].0@);
            } else if y == i {
                assert(s[y].0@ == k && s[x] == olds[x]);
                assert(olds[x].0@ != olds[i].0@);
            }
        }
        assert forall|j: int| 0 <= j < i implies s[j].0@ != k by {
            assert(s[j] == olds[j]);
            assert(olds[j].0@ != olds[i].0@);
        }
        lemma_assoc_index_at(s, k, i);
        assert forall|q: Seq<char>| q != k implies #[trigger] assoc_index(s, q) == assoc_index(
            olds,
            q,
        ) && (assoc_index(s, q) >= 0 ==> s[assoc_index(s, q)].1 == olds[assoc_index(
            olds,
            q,
        )].1) by {
            lemma_assoc_index_spec(olds, q);
            let j = assoc_index(olds, q);
            if j >= 0 {
                assert(j != i);
                assert(s[j] == olds[j]);
                assert forall|m: int| 0 <= m < j implies s[m].0@ != q by {
                    if m == i {
                        assert(s[m].0@ == k);
                    } else {
                        assert(s[m] == olds[m]);
                    }
                }
                lemma_assoc_index_at(s, q, j);
            } else {
                lemma_assoc_index_spec(s, q);
                if assoc_index(s, q) >= 0 {
                    let m = assoc_index(s, q);
                    assert(s[m].0@ == q);
                    assert(m != i);
                    assert(olds[m].0@ == q);
                }
            }
        }
        assert(self@ =~= oldmap.insert(k, v));
    }

    proof fn lemma_after_push(&self, olds: Seq<(String, V)>, k: Seq<char>, v: V)
        requires
            forall|x: int, y: int| 0 <= x < y < olds.len() ==> olds[x].0@ != olds[y].0@,
            forall|j: int| 0 <= j < olds.len() ==> olds[j].0@ != k,
            self.entries@.len() == olds.len() + 1,
            forall|j: int| 0 <= j < olds.len() ==> self.entries@[j] == olds[j],
            self.entries@[olds.len() as int].0@ == k,
            self.entries@[olds.len() as int].1 == v,
        ensures
            self.wf(),
            self@ == Map::new(
                |q: Seq<char>| assoc_index(olds, q) >= 0,
                |q: Seq<char>| olds[assoc_index(olds, q)].1,
            ).insert(k, v),
    {
        let s = self.entries@;
        let n = olds.len() as int;
        let oldmap = Map::new(
            |q: Seq<char>| assoc_index(olds, q) >= 0,
            |q: Seq<char>| olds[assoc_index(olds, q)].1,
        );
        assert forall|x: int, y: int| 0 <= x < y < s.len() implies s[x].0@ != s[y].0@ by {
            if y == n {
                assert(s[x] == olds[x]);
                assert(olds[x].0@ != k);
            } else {
                assert(s[x] == olds[x] && s[y] == olds[y]);
                assert(olds[x].0@ != olds[y].0@);
            }
        }
        assert forall|j: int| 0 <= j < n implies s[j].0@ != k by {
            assert(s[j] == olds[j]);
        }
        lemma_assoc_index_at(s, k, n);
        assert forall|q: Seq<char>| q != k implies #[trigger] assoc_index(s, q) == assoc_index(
            olds,
            q,
        ) && (assoc_index(s, q) >= 0 ==> s[assoc_index(s, q)].1 == olds[assoc_index(
            olds,
            q,
        )].1) by {
            lemma_assoc_index_spec(olds, q);
            let j = assoc_index(olds, q);
            if j >= 0 {
                assert(s[j] == olds[j]);
                assert forall|m: int| 0 <= m < j implies s[m].0@ != q by {
                    assert(s[m] == olds[m]);
                }
                lemma_assoc_index_at(s, q, j);
            } else {
                lemma_assoc_index_spec(s, q);
                if assoc_index(s, q) >= 0 {
                    let m = assoc_index(s, q);
                    assert(s[m].0@ == q);
                    assert(m != n);
                    assert(olds[m].0@ == q);
                }
            }
        }
        assert(self@ =~= oldmap.insert(k, v));
    }

    /// Remove the entry holding `k`, handing its value back; later keys
    /// keep their relative order.
    pub fn remove(&mut self, k: &str) -> (r: Option<V>)
        requires
            old(self).wf(),
        ensures
            final(self).wf(),
            final(self)@ == old(self)@.remove(k@),
            match r {
                Some(v) => old(self)@.contains_key(k@) && v == old(self)@[k@] && exists|i: int|
                    0 <= i < old(self).key_seq().len() && old(self).key_seq()[i] == k@
                        && final(self).key_seq() == old(self).key_seq().remove(i),
                None => !old(self)@.contains_key(k@) && final(self).key_seq() == old(
                    self,
                ).key_seq(),
            },
    {
        let ghost olds = self.entries@;
        match self.find_idx(k) {
            Some(i) => {
                proof {
                    lemma_assoc_index_at(olds, k@, i as int);
                }
                let e = self.entries.remove(i);
                proof {
                    self.lemma_after_remove(olds, i as int, k@);
                    assert(self.key_seq() =~= old(self).key_seq().remove(i as int));
                }
                Some(e.1)
            },
            None => {
                proof {
                    lemma_assoc_index_spec(olds, k@);
                    assert(self@ =~= old(self)@.remove(k@));
                }
                None
            },
        }
    }

    proof fn lemma_after_remove(&self, olds: Seq<(String, V)>, i: int, k: Seq<char>)
        requires
            forall|x: int, y: int| 0 <= x < y < olds.len() ==> olds[x].0@ != olds[y].0@,
            0 <= i < olds.len(),
            olds[i].0@ == k,
            self.entries@.len() == olds.len() - 1,
            forall|j: int| 0 <= j < i ==> self.entries@[j] == olds[j],
            forall|j: int| i <= j < olds.len() - 1 ==> self.entries@[j] == olds[j + 1],
        ensures
            self.wf(),
            self@ == Map::new(
                |q: Seq<char>| assoc_index(olds, q) >= 0,
                |q: Seq<char>| olds[assoc_index(olds, q)].1,
            ).remove(k),
    {
        let s = self.entries@;
        let oldmap = Map::new(
            |q: Seq<char>| assoc_index(olds, q) >= 0,
            |q: Seq<char>| olds[assoc_index(olds, q)].1,
        );
        assert forall|m: int| 0 <= m < s.len() implies (s[m] == if m < i {
            olds[m]
        } else {
            olds[m + 1]
        }) by {}
        assert forall|x: int, y: int| 0 <= x < y < s.len() implies s[x].0@ != s[y].0@ by {
            let ox = if x < i { x } else { x + 1 };
            let oy = if y < i { y } else { y + 1 };
            assert(s[x] == olds[ox] && s[y] == olds[oy]);
            assert(olds[ox].0@ != olds[oy].0@);
        }
        assert forall|q: Seq<char>| q != k implies #[trigger] assoc_index(s, q) == (
        if assoc_index(olds, q) < i {
            assoc_index(olds, q)
        } else {
            assoc_index(olds, q) - 1
        }) && (assoc_index(s, q) >= 0 ==> s[assoc_index(s, q)].1 == olds[assoc_index(
            olds,
            q,
        )].1) by {
            lemma_assoc_index_spec(olds, q);
            let j = assoc_index(olds, q);
            if j >= 0 {
                assert(j != i);
                if j < i {
                    assert(s[j] == olds[j]);
                    assert forall|m: int| 0 <= m < j implies s[m].0@ != q by {
                        assert(s[m] == olds[m]);
                    }
                    lemma_assoc_index_at(s, q, j);
                } else {
                    assert(s[j - 1] == olds[j]);
                    assert forall|m: int| 0 <= m < j - 1 implies s[m].0@ != q by {
                        let om = if m < i {
                            m
                        } else {
                            m + 1
                        };
                        assert(s[m] == olds[om]);
                    }
                    lemma_assoc_index_at(s, q, j - 1);
                }
            } else {
                lemma_assoc_index_spec(s, q);
                if assoc_index(s, q) >= 0 {
                    let m = assoc_index(s, q);
                    let om = if m < i {
                        m
                    } else {
                        m + 1
                    };
                    assert(s[m] == olds[om]);
                    assert(olds[om].0@ == q);
                }
            }
        }
        assert forall|q: Seq<char>| q == k implies assoc_index(s, q) == -1 by {
            lemma_assoc_index_spec(s, q);
            if assoc_index(s, q) >= 0 {
                let m = assoc_index(s, q);
                let om = if m < i {
                    m
                } else {
                    m + 1
                };
                assert(s[m] == olds[om]);
                assert(olds[om].0@ == q);
                assert(om != i);
                assert(olds[om].0@ != olds[i].0@);
            }
        }
        assert(self@ =~= oldmap.remove(k));
    }

    /// Number of entries.
    pub fn len(&self) -> (r: usize)
        ensures
            r == self.key_seq().len(),
    {
        self.entries.len()
    }

    /// Distinct entries carry distinct keys.
    pub proof fn lemma_key_seq_distinct(&self)
        requires
            self.wf(),
        ensures
            forall|i: int, j: int|
                0 <= i < j < self.key_seq().len() ==> self.key_seq()[i] != self.key_seq()[j],
    {
        assert forall|i: int, j: int| 0 <= i < j < self.key_seq().len() implies self.key_seq()[i]
            != self.key_seq()[j] by {
            assert(self.key_seq()[i] == self.entries@[i].0@);
            assert(self.key_seq()[j] == self.entries@[j].0@);
        }
    }

    /// The keys, in insertion order, as owned strings.
    pub fn keys(&self) -> (r: Vec<String>)
        ensures
            r.deep_view() == self.key_seq(),
    {
        let mut r: Vec<String> = Vec::new();
        let mut i: usize = 0;
        while i < self.entries.len()
            invariant
                i <= self.entries@.len(),
                r@.len() == i,
                forall|j: int| 0 <= j < i ==> r.deep_view()[j] == self.key_seq()[j],
            decreases self.entries@.len() - i,
        {
            let ghost pre = r@;
            let ghost pred = r.deep_view();
            r.push(self.entries[i].0.clone());
            proof {
                assert(forall|j: int| 0 <= j < pre.len() ==> r@[j] == pre[j]);
                assert(forall|j: int|
                    0 <= j < pre.len() ==> #[trigger] pred[j] == pre[j].deep_view());
                assert(forall|j: int|
                    0 <= j < pre.len() ==> #[trigger] r.deep_view()[j] == pred[j]);
                assert(r.deep_view()[i as int] == self.key_seq()[i as int]);
            }
            i += 1;
        }
        proof {
            assert(r.deep_view() =~~= self.key_seq());
        }
        r
    }
}

impl KeySet {
    /// Add a string to the set.
    pub fn add(&mut self, k: String)
        requires
            old(self).wf(),
        ensures
            final(self).wf(),
            final(self)@.dom() == old(self)@.dom().insert(k@),
    {
        self.insert(k, ());
        proof {
            assert(self@.dom() =~= old(self)@.dom().insert(k@));
        }
    }

    /// Remove a string from the set; report whether it was present.
    pub fn take_out(&mut self, k: &str) -> (r: bool)
        requires
            old(self).wf(),
        ensures
            final(self).wf(),
            final(self)@.dom() == old(self)@.dom().remove(k@),
            r == old(self)@.dom().contains(k@),
    {
        let r = self.remove(k);
        proof {
            assert(self@.dom() =~= old(self)@.dom().remove(k@));
        }
        r.is_some()
    }

    /// A copy of the set with the same members, in the same order.
    pub fn dup_set(&self) -> (r: KeySet)
        requires
            self.wf(),
        ensures
            r.wf(),
            r@.dom() == self@.dom(),
            r.key_seq() == self.key_seq(),
    {
        let mut r: KeySet = StrMap::new();
        let mut i: usize = 0;
        while i < self.entries.len()
            invariant
                self.wf(),
                r.wf(),
                i <= self.entries@.len(),
                r.key_seq() =~= self.key_seq().take(i as int),
                forall|q: Seq<char>| #[trigger] r@.contains_key(q) ==> self@.contains_key(q),
            decreases self.entries@.len() - i,
        {
            proof {
                self.lemma_entries_in_view();
                r.lemma_entries_in_view();
                if r@.contains_key(self.entries@[i as int].0@) {
                    let j = choose|j: int|
                        0 <= j < r.entries@.len() && (#[trigger] r.entries@[j]).0@
                            == self.entries@[i as int].0@;
                    assert(r.key_seq()[j] == r.entries@[j].0@);
                    assert(r.key_seq().len() == r.entries@.len());
                    assert(j < i);
                    assert(r.key_seq()[j] == self.key_seq().take(i as int)[j]);
                    assert(self.key_seq()[j] == self.entries@[j].0@);
                    assert(self.entries@[j].0@ == self.entries@[i as int].0@);
                    assert(false);
                }
            }
            r.insert(self.entries[i].0.clone(), ());
            proof {
                assert(r.key_seq() =~= self.key_seq().take((i + 1) as int));
            }
            i += 1;
        }
        proof {
            assert(self.key_seq().take(self.key_seq().len() as int) =~= self.key_seq());
            self.lemma_entries_in_view();
            r.lemma_entries_in_view();
            assert forall|q: Seq<char>| #[trigger] r@.contains_key(q) implies self@.contains_key(
                q,
            ) by {}
            assert forall|q: Seq<char>| #[trigger] self@.contains_key(q) implies r@.contains_key(
                q,
            ) by {
                let j = choose|j: int|
                    0 <= j < self.entries@.len() && (#[trigger] self.entries@[j]).0@ == q;
                assert(r.key_seq()[j] == q);
                let jj = choose|jj: int|
                    0 <= jj < r.entries@.len() && (#[trigger] r.entries@[jj]).0@ == q;
            }
            assert(r@.dom() =~= self@.dom());
        }
        r
    }

    /// Whether the set is empty.
    pub fn is_empty(&self) -> (r: bool)
        ensures
            r == (self.key_seq().len() == 0),
    {
        self.entries.len() == 0
    }
}

} // verus!
