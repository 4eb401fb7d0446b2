//! Filtering and admission of scanned directory entries into a file tree.
//! The directory walk itself (gitignore handling, stat calls) happens
//! outside; this module decides which observed files are indexed and
//! builds their records.
use vstd::prelude::*;
use crate::config::{should_ignore_dir, should_ignore_extension, spec_ignored_dirs, spec_ignored_extension};
use crate::file_entry::{spec_language_of_path, FileEntry};
use crate::file_tree::FileTree;
use crate::text::{spec_split, str_split};

verus! {

/// One file observed by the directory walk: its relative path and stat
/// data (size in bytes, modification time in milliseconds).
pub struct ScanItem {
    pub rel_path: String,
    pub size: u64,
    pub modified: i64,
}

/// Some component of the path names a directory in the built-in ignore
/// set.
pub open spec fn spec_should_skip(p: Seq<char>) -> bool {
    exists|i: int|
        0 <= i < spec_split(p, '/').len() && spec_ignored_dirs().contains(
            #[trigger] spec_split(p, '/')[i],
        )
}

/// Whether any path component matches the built-in ignore directories.
pub fn should_skip(rel_path: &str) -> (r: bool)
    ensures
        r == spec_should_skip(rel_path@),
{
    let parts = str_split(rel_path, '/');
    let ghost split = spec_split(rel_path@, '/');
    let mut i: usize = 0;
    while i < parts.len()
        invariant
            split == spec_split(rel_path@, '/'),
            parts.deep_view() == split,
            i <= split.len(),
            forall|j: int| 0 <= j < i ==> !spec_ignored_dirs().contains(#[trigger] split[j]),
        decreases parts@.len() - i,
    {
        proof {
            assert(parts.deep_view()[i as int] == parts@[i as int]@);
            assert(parts@[i as int]@ == split[i as int]);
        }
        if should_ignore_dir(parts[i].as_str()) {
            proof {
                assert(spec_split(rel_path@, '/')[i as int] == split[i as int]);
                assert(spec_ignored_dirs().contains(spec_split(rel_path@, '/')[i as int]));
                assert(spec_should_skip(rel_path@));
            }
            return true;
        }
        i += 1;
    }
    proof {
        if spec_should_skip(rel_path@) {
            let j = choose|j: int|
                0 <= j < split.len() && spec_ignored_dirs().contains(#[trigger] split[j]);
            assert(false);
        }
    }
    false
}

/// A scanned item survives the built-in filters: no ignored directory
/// component, no ignored extension, size within the limit.
pub open spec fn spec_accepts(it: ScanItem, max_file_size: u64) -> bool {
    !spec_should_skip(it.rel_path@) && !spec_ignored_extension(it.rel_path@) && it.size
        <= max_file_size
}

/// A record as the walker emits it: its own path passes every filter, the
/// language is derived from the path, and nothing beyond the stat data is
/// set.
pub open spec fn spec_scan_record(e: FileEntry, p: Seq<char>, max_file_size: u64) -> bool {
    &&& e.rel_path@ == p
    &&& !spec_should_skip(p)
    &&& !spec_ignored_extension(p)
    &&& e.size <= max_file_size
    &&& e.language == spec_language_of_path(p)
    &&& e.definition is None
    &&& e.marks@ == Seq::<crate::file_entry::FileMark>::empty()
    &&& !e.symbols_extracted
}

/// Admit the surviving scanned files into the tree and count them. Every
/// path present afterwards either kept its old record or carries a fresh
/// record that passes all filters and the stat data of an accepted item.
#[verifier::loop_isolation(false)]
pub fn scan_directory(file_tree: &mut FileTree, items: Vec<ScanItem>, max_file_size: u64) -> (count:
    usize)
    requires
        old(file_tree).wf(),
    ensures
        final(file_tree).wf(),
        count == items@.filter(|it: ScanItem| spec_accepts(it, max_file_size)).len(),
        forall|p: Seq<char>|
            #[trigger] final(file_tree).files@.contains_key(p)
                ==> (old(file_tree).files@.contains_key(p) && final(file_tree).files@[p] == old(
                file_tree,
            ).files@[p])
                || spec_scan_record(final(file_tree).files@[p], p, max_file_size),
        forall|it: ScanItem|
            items@.contains(it) && spec_accepts(it, max_file_size)
                ==> final(file_tree).files@.contains_key(#[trigger] it.rel_path@),
        forall|p: Seq<char>|
            #[trigger] final(file_tree).files@.contains_key(p) && !old(
                file_tree,
            ).files@.contains_key(p) ==> exists|j: int|
                0 <= j < items@.len() && (#[trigger] items@[j]).rel_path@ == p && spec_accepts(
                    items@[j],
                    max_file_size,
                ) && final(file_tree).files@[p].size == items@[j].size
                    && final(file_tree).files@[p].modified == items@[j].modified,
{
    let ghost m0 = file_tree.files@;
    let ghost pred = |it: ScanItem| spec_accepts(it, max_file_size);
    let mut count: usize = 0;
    let mut i: usize = 0;
    while i < items.len()
        invariant
            file_tree.wf(),
            i <= items@.len(),
            count == items@.take(i as int).filter(pred).len(),
            count <= i,
            pred == |it: ScanItem| spec_accepts(it, max_file_size),
            forall|p: Seq<char>|
                #[trigger] file_tree.files@.contains_key(p) ==> (m0.contains_key(p)
                    && file_tree.files@[p] == m0[p]) || spec_scan_record(
                    file_tree.files@[p],
                    p,
                    max_file_size,
                ),
            forall|j: int|
                0 <= j < i && pred(#[trigger] items@[j]) ==> file_tree.files@.contains_key(
                    items@[j].rel_path@,
                ),
            forall|p: Seq<char>|
                #[trigger] file_tree.files@.contains_key(p) && !old(
                    file_tree,
                ).files@.contains_key(p) ==> exists|j: int|
                    0 <= j < i && (#[trigger] items@[j]).rel_path@ == p && pred(items@[j])
                        && file_tree.files@[p].size == items@[j].size && file_tree.files@[
                        p].modified == items@[j].modified,
        decreases items@.len() - i,
    {
        proof {
            reveal(Seq::filter);
            assert(items@.take((i + 1) as int) =~= items@.take(i as int).push(items@[i as int]));
            assert(items@.take(i as int).push(items@[i as int]).drop_last() =~= items@.take(
                i as int,
            ));
        }
        let it = &items[i];
        let skip_dir = should_skip(it.rel_path.as_str());
        let skip_ext = should_ignore_extension(it.rel_path.as_str());
        if !skip_dir && !skip_ext && it.size <= max_file_size {
            let entry = FileEntry::new(it.rel_path.clone(), it.size, it.modified);
            let ghost pm = file_tree.files@;
            file_tree.insert(entry);
            proof {
                assert forall|p: Seq<char>| #[trigger] file_tree.files@.contains_key(p) implies (
                m0.contains_key(p) && file_tree.files@[p] == m0[p]) || spec_scan_record(
                    file_tree.files@[p],
                    p,
                    max_file_size,
                ) by {
                    if p != items@[i as int].rel_path@ {
                        assert(pm.contains_key(p) && file_tree.files@[p] == pm[p]);
                    }
                }
                assert forall|p: Seq<char>|
                    #[trigger] file_tree.files@.contains_key(p) && !m0.contains_key(p)
                        implies exists|j: int|
                        0 <= j < i + 1 && (#[trigger] items@[j]).rel_path@ == p && pred(items@[j])
                            && file_tree.files@[p].size == items@[j].size && file_tree.files@[
                            p].modified == items@[j].modified by {
                    if p == items@[i as int].rel_path@ {
                        assert(items@[i as int].rel_path@ == p && pred(items@[i as int])
                            && file_tree.files@[p].size == items@[i as int].size
                            && file_tree.files@[p].modified == items@[i as int].modified);
                    } else {
                        assert(pm.contains_key(p));
                        let j = choose|j: int|
                            0 <= j < i && (#[trigger] items@[j]).rel_path@ == p && pred(items@[j])
                                && pm[p].size == items@[j].size && pm[p].modified == items@[
                                j].modified;
                        assert(file_tree.files@[p] == pm[p]);
                        assert(items@[j].rel_path@ == p && pred(items@[j]) && file_tree.files@[
                            p].size == items@[j].size && file_tree.files@[p].modified == items@[
                            j].modified);
                    }
                }
            }
            count += 1;
        }
        i += 1;
    }
    proof {
        assert(items@.take(items@.len() as int) =~= items@);
        assert forall|it: ScanItem|
            items@.contains(it) && pred(it) implies file_tree.files@.contains_key(
            #[trigger] it.rel_path@,
        ) by {
            let j = choose|j: int| 0 <= j < items@.len() && items@[j] == it;
        }
    }
    count
}

} // verus!
