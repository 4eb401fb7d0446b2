//! The file tree: a map from relative path to file record, with a visual
//! directory-tree rendering built from a sorted trie of path components.
use vstd::prelude::*;
use crate::file_entry::{FileEntry, FileMark, Language};
use crate::strmap::StrMap;
use crate::text::{lex_leq, lemma_lex_total, str_le, str_eq};
use vstd::string::StringExecFns;

verus! {

/// One node of the rendering trie: a file leaf, or a directory holding
/// children sorted by name.
pub enum TreeNode {
    File,
    Dir(Vec<(String, TreeNode)>),
}

/// The component paths led to by a node. A file contributes the empty
/// path; a directory contributes its children's paths, each prefixed with
/// the child's name. Every path of a directory is nonempty.
pub open spec fn node_paths(n: TreeNode) -> Set<Seq<Seq<char>>>
    decreases n,
{
    match n {
        TreeNode::File => set![Seq::<Seq<char>>::empty()],
        TreeNode::Dir(cs) => children_paths(cs@),
    }
}

pub open spec fn children_paths(cs: Seq<(String, TreeNode)>) -> Set<Seq<Seq<char>>>
    decreases cs,
{
    if cs.len() == 0 {
        Set::empty()
    } else {
        prefixed_paths(cs[0].0@, node_paths(cs[0].1)).union(children_paths(cs.drop_first()))
    }
}

/// Each path of `ps`, with `name` put in front.
pub open spec fn prefixed_paths(name: Seq<char>, ps: Set<Seq<Seq<char>>>) -> Set<Seq<Seq<char>>> {
    Set::new(|p: Seq<Seq<char>>| p.len() > 0 && p[0] == name && ps.contains(p.drop_first()))
}

/// Number of file leaves below a node.
pub open spec fn node_leaves(n: TreeNode) -> nat
    decreases n,
{
    match n {
        TreeNode::File => 1,
        TreeNode::Dir(cs) => children_leaves(cs@),
    }
}

pub open spec fn children_leaves(cs: Seq<(String, TreeNode)>) -> nat
    decreases cs,
{
    if cs.len() == 0 {
        0
    } else {
        node_leaves(cs[0].1) + children_leaves(cs.drop_first())
    }
}

/// `q` is a strict prefix of `p`.
pub open spec fn strict_prefix(q: Seq<Seq<char>>, p: Seq<Seq<char>>) -> bool {
    q.len() < p.len() && q =~= p.take(q.len() as int)
}

/// Children keys strictly increase, every directory node is itself well
/// formed and nonempty.
pub open spec fn wf_children(cs: Seq<(String, TreeNode)>) -> bool
    decreases cs,
{
    &&& forall|i: int, j: int|
        0 <= i < j < cs.len() ==> lex_leq(#[trigger] cs[i].0@, #[trigger] cs[j].0@) && cs[i].0@
            != cs[j].0@
    &&& forall|i: int| 0 <= i < cs.len() ==> wf_node(#[trigger] cs[i].1)
}

pub open spec fn wf_node(n: TreeNode) -> bool
    decreases n,
{
    match n {
        TreeNode::File => true,
        TreeNode::Dir(cs) => wf_children(cs@) && children_paths(cs@) != Set::<Seq<Seq<char>>>::empty(),
    }
}

/// A node holds the empty path exactly when it is a file leaf.
proof fn lemma_dir_paths_nonempty_components(cs: Seq<(String, TreeNode)>)
    ensures
        forall|p: Seq<Seq<char>>| children_paths(cs).contains(p) ==> p.len() > 0,
    decreases cs,
{
    if cs.len() > 0 {
        lemma_dir_paths_nonempty_components(cs.drop_first());
        assert forall|p: Seq<Seq<char>>| children_paths(cs).contains(p) implies p.len() > 0 by {
            if prefixed_paths(cs[0].0@, node_paths(cs[0].1)).contains(p) {
            } else {
                assert(children_paths(cs.drop_first()).contains(p));
            }
        }
    }
}

/// Membership in `children_paths` by child: a path is present exactly when
/// its head names a child and its tail is in that child's paths.
proof fn lemma_children_paths_member(cs: Seq<(String, TreeNode)>, p: Seq<Seq<char>>)
    requires
        forall|i: int, j: int| 0 <= i < j < cs.len() ==> (#[trigger] cs[i].0@) != (#[trigger] cs[j].0@),
    ensures
        children_paths(cs).contains(p) <==> (p.len() > 0 && exists|i: int|
            0 <= i < cs.len() && (#[trigger] cs[i].0@) == p[0] && node_paths(cs[i].1).contains(
                p.drop_first(),
            )),
    decreases cs,
{
    if cs.len() > 0 {
        assert(forall|i: int, j: int|
            0 <= i < j < cs.drop_first().len() ==> (#[trigger] cs.drop_first()[i].0@) != (
            #[trigger] cs.drop_first()[j].0@)) by {
            assert(forall|i: int|
                0 <= i < cs.drop_first().len() ==> cs.drop_first()[i] == cs[i + 1]);
        }
        lemma_children_paths_member(cs.drop_first(), p);
        assert forall|i: int|
            0 <= i < cs.drop_first().len() implies cs.drop_first()[i] == cs[i + 1] by {}
        if children_paths(cs).contains(p) {
            if prefixed_paths(cs[0].0@, node_paths(cs[0].1)).contains(p) {
                assert(cs[0].0@ == p[0] && node_paths(cs[0].1).contains(p.drop_first()));
            } else {
                let i = choose|i: int|
                    0 <= i < cs.drop_first().len() && (#[trigger] cs.drop_first()[i].0@) == p[0]
                        && node_paths(cs.drop_first()[i].1).contains(p.drop_first());
                assert(cs[i + 1].0@ == p[0] && node_paths(cs[i + 1].1).contains(p.drop_first()));
            }
        }
        if p.len() > 0 && (exists|i: int|
            0 <= i < cs.len() && (#[trigger] cs[i].0@) == p[0] && node_paths(cs[i].1).contains(
                p.drop_first(),
            )) {
            let i = choose|i: int|
                0 <= i < cs.len() && (#[trigger] cs[i].0@) == p[0] && node_paths(cs[i].1).contains(
                    p.drop_first(),
                );
            if i == 0 {
                assert(prefixed_paths(cs[0].0@, node_paths(cs[0].1)).contains(p));
            } else {
                assert(cs.drop_first()[i - 1].0@ == p[0] && node_paths(
                    cs.drop_first()[i - 1].1,
                ).contains(p.drop_first()));
            }
        }
    }
}

proof fn lemma_children_leaves_update(cs: Seq<(String, TreeNode)>, i: int, e: (String, TreeNode))
    requires
        0 <= i < cs.len(),
    ensures
        children_leaves(cs.update(i, e)) + node_leaves(cs[i].1) == children_leaves(cs)
            + node_leaves(e.1),
    decreases i,
{
    if i == 0 {
        assert(cs.update(0, e).drop_first() =~= cs.drop_first());
        assert(cs.update(0, e)[0] == e);
    } else {
        assert(cs.update(i, e).drop_first() =~= cs.drop_first().update(i - 1, e));
        lemma_children_leaves_update(cs.drop_first(), i - 1, e);
    }
}

proof fn lemma_children_leaves_insert(cs: Seq<(String, TreeNode)>, i: int, e: (String, TreeNode))
    requires
        0 <= i <= cs.len(),
    ensures
        children_leaves(cs.insert(i, e)) == children_leaves(cs) + node_leaves(e.1),
    decreases i,
{
    if i == 0 {
        assert(cs.insert(0, e).drop_first() =~= cs);
        assert(cs.insert(0, e)[0] == e);
    } else {
        assert(cs.insert(i, e)[0] == cs[0]);
        assert(cs.insert(i, e).drop_first() =~= cs.drop_first().insert(i - 1, e));
        lemma_children_leaves_insert(cs.drop_first(), i - 1, e);
    }
}

/// The tail of the component list from `idx` on.
pub open spec fn tail_of(parts: Seq<Seq<char>>, idx: int) -> Seq<Seq<char>> {
    parts.skip(idx)
}

/// Find where `name` stands, or belongs, among the sorted children:
/// either the index of the equal key, or the first index whose key is
/// greater.
fn find_slot(cs: &Vec<(String, TreeNode)>, name: &str) -> (r: (usize, bool))
    requires
        wf_children(cs@),
    ensures
        r.0 <= cs@.len(),
        r.1 ==> r.0 < cs@.len() && cs@[r.0 as int].0@ == name@,
        !r.1 ==> forall|j: int| 0 <= j < cs@.len() ==> cs@[j].0@ != name@,
        forall|j: int| 0 <= j < r.0 ==> lex_leq(#[trigger] cs@[j].0@, name@) && cs@[j].0@ != name@,
        !r.1 ==> forall|j: int|
            r.0 <= j < cs@.len() ==> lex_leq(name@, #[trigger] cs@[j].0@) && cs@[j].0@ != name@,
{
    let mut pos: usize = 0;
    while pos < cs.len()
        invariant
            wf_children(cs@),
            pos <= cs@.len(),
            forall|j: int|
                0 <= j < pos ==> lex_leq(#[trigger] cs@[j].0@, name@) && cs@[j].0@ != name@,
        decreases cs@.len() - pos,
    {
        if str_eq(cs[pos].0.as_str(), name) {
            return (pos, true);
        }
        if str_le(cs[pos].0.as_str(), name) {
            pos += 1;
        } else {
            proof {
                crate::text::lemma_lex_total(cs@[pos as int].0@, name@);
                assert forall|j: int| pos <= j < cs@.len() implies lex_leq(
                    name@,
                    #[trigger] cs@[j].0@,
                ) && cs@[j].0@ != name@ by {
                    if j > pos {
                        crate::text::lemma_lex_trans(name@, cs@[pos as int].0@, cs@[j].0@);
                        if cs@[j].0@ == name@ {
                            crate::text::lemma_lex_antisym(cs@[pos as int].0@, name@);
                        }
                    }
                }
            }
            return (pos, false);
        }
    }
    (pos, false)
}

/// Insert the path suffix `parts[idx..]` into the trie, keeping children
/// sorted. A suffix that collides with an existing file or directory (one
/// a strict prefix of the other) is never presented, so the trie gains
/// exactly this path.
pub fn insert_into_tree(tree: Vec<(String, TreeNode)>, parts: &Vec<String>, idx: usize) -> (r: Vec<
    (String, TreeNode),
>)
    requires
        wf_children(tree@),
        idx < parts@.len(),
        forall|q: Seq<Seq<char>>|
            children_paths(tree@).contains(q) ==> !strict_prefix(
                q,
                tail_of(parts.deep_view(), idx as int),
            ) && !strict_prefix(tail_of(parts.deep_view(), idx as int), q),
    ensures
        wf_children(r@),
        children_paths(r@) == children_paths(tree@).insert(tail_of(parts.deep_view(), idx as int)),
        children_leaves(r@) == children_leaves(tree@) + (if children_paths(tree@).contains(
            tail_of(parts.deep_view(), idx as int),
        ) {
            0int
        } else {
            1int
        }),
        slashless_children(tree@) && (forall|j: int|
            idx <= j < parts@.len() ==> !crate::text::has_char(
                #[trigger] parts.deep_view()[j],
                '/',
            )) ==> slashless_children(r@),
    decreases parts@.len() - idx,
{
    let ghost tail = tail_of(parts.deep_view(), idx as int);
    let ghost cs0 = tree@;
    let name = &parts[idx];
    proof {
        assert(parts.deep_view()[idx as int] == parts@[idx as int]@);
        assert(tail[0] == name@);
        assert(tail.len() == parts@.len() - idx);
    }
    let n = parts.len();
    let last = idx + 1 == n;
    let mut cs = tree;
    let (pos, found) = find_slot(&cs, name.as_str());
    if found {
        let (nm, node) = cs.remove(pos);
        match node {
            TreeNode::File => {
                proof {
                    lemma_children_paths_member(cs0, tail);
                    let p1 = seq![name@];
                    lemma_children_paths_member(cs0, p1);
                    assert(node_paths(cs0[pos as int].1).contains(Seq::<Seq<char>>::empty()));
                    assert(p1.drop_first() =~= Seq::<Seq<char>>::empty());
                    assert(cs0[pos as int].0@ == p1[0]);
                    assert(children_paths(cs0).contains(p1));
                    if !last {
                        assert(strict_prefix(seq![name@], tail)) by {
                            assert(seq![name@] =~= tail.take(1));
                        }
                        assert(!strict_prefix(seq![name@], tail));
                        assert(false);
                    }
                    assert(tail =~= seq![name@]);
                    assert(children_paths(cs0).contains(tail));
                }
                cs.insert(pos, (nm, TreeNode::File));
                proof {
                    assert(cs@ =~= cs0);
                    assert(children_paths(cs@) =~= children_paths(cs0).insert(tail));
                }
                cs
            },
            TreeNode::Dir(children) => {
                let ghost childs0 = children@;
                proof {
                    assert(wf_node(cs0[pos as int].1));
                    lemma_children_paths_member(cs0, tail);
                    if last {
                        // a nonempty directory already stands at this name
                        let p0 = choose|p: Seq<Seq<char>>| children_paths(childs0).contains(p);
                        assert(children_paths(childs0) != Set::<Seq<Seq<char>>>::empty());
                        assert(exists|p: Seq<Seq<char>>| children_paths(childs0).contains(p)) by {
                            if forall|p: Seq<Seq<char>>|
                                !(#[trigger] children_paths(childs0).contains(p)) {
                                assert(children_paths(childs0) =~= Set::<Seq<Seq<char>>>::empty());
                            }
                        }
                        let p1 = choose|p: Seq<Seq<char>>| children_paths(childs0).contains(p);
                        lemma_dir_paths_nonempty_components(childs0);
                        let q = seq![name@] + p1;
                        assert(q.drop_first() =~= p1);
                        assert(children_paths(cs0).contains(q)) by {
                            lemma_children_paths_member(cs0, q);
                            assert(q[0] == name@);
                            assert(node_paths(cs0[pos as int].1).contains(q.drop_first()));
                        }
                        assert(strict_prefix(tail, q)) by {
                            assert(q.take(1) =~= seq![name@]);
                            assert(tail =~= seq![name@]);
                        }
                        assert(false);
                    }
                    // the recursive call's collision-freedom
                    assert forall|q2: Seq<Seq<char>>|
                        children_paths(childs0).contains(q2) implies !strict_prefix(
                        q2,
                        tail_of(parts.deep_view(), idx + 1 as int),
                    ) && !strict_prefix(tail_of(parts.deep_view(), idx + 1 as int), q2) by {
                        let q = seq![name@] + q2;
                        assert(q.drop_first() =~= q2);
                        assert(children_paths(cs0).contains(q)) by {
                            lemma_children_paths_member(cs0, q);
                            assert(q[0] == name@);
                            assert(node_paths(cs0[pos as int].1).contains(q.drop_first()));
                        }
                        let tl1 = tail_of(parts.deep_view(), idx + 1 as int);
                        assert(tl1 =~= tail.drop_first());
                        if strict_prefix(q2, tl1) {
                            assert(strict_prefix(q, tail)) by {
                                assert forall|j: int| 0 <= j < q.len() implies q[j] == tail[j] by {
                                    if j > 0 {
                                        assert(q[j] == q2[j - 1]);
                                        assert(q2[j - 1] == tl1.take(q2.len() as int)[j - 1]);
                                        assert(tail[j] == tail.drop_first()[j - 1]);
                                    }
                                }
                                assert(q =~= tail.take(q.len() as int));
                            }
                        }
                        if strict_prefix(tl1, q2) {
                            assert(strict_prefix(tail, q)) by {
                                assert forall|j: int| 0 <= j < tail.len() implies tail[j]
                                    == q[j] by {
                                    if j > 0 {
                                        assert(tail[j] == tail.drop_first()[j - 1]);
                                        assert(tl1[j - 1] == q2.take(tl1.len() as int)[j - 1]);
                                        assert(q[j] == q2[j - 1]);
                                    }
                                }
                                assert(tail =~= q.take(tail.len() as int));
                            }
                        }
                    }
                }
                let new_children = insert_into_tree(children, parts, idx + 1);
                let ghost tl1 = tail_of(parts.deep_view(), (idx + 1) as int);
                cs.insert(pos, (nm, TreeNode::Dir(new_children)));
                proof {
                    assert(cs@ =~= cs0.update(pos as int, cs@[pos as int]));
                    assert(cs@[pos as int].0@ == name@);
                    assert(cs@.len() == cs0.len());
                    assert(forall|j: int|
                        0 <= j < cs0.len() && j != pos ==> cs@[j] == cs0[j]);
                    assert(node_paths(cs@[pos as int].1) =~= children_paths(childs0).insert(tl1));
                    // well-formedness
                    assert forall|i: int, j: int| 0 <= i < j < cs@.len() implies lex_leq(
                        #[trigger] cs@[i].0@,
                        #[trigger] cs@[j].0@,
                    ) && cs@[i].0@ != cs@[j].0@ by {
                        assert(cs@[i].0@ == cs0[i].0@ && cs@[j].0@ == cs0[j].0@);
                    }
                    assert forall|i: int| 0 <= i < cs@.len() implies wf_node(
                        #[trigger] cs@[i].1,
                    ) by {
                        if i != pos {
                            assert(cs@[i].1 == cs0[i].1);
                        } else {
                            assert(children_paths(new_children@).contains(tl1));
                        }
                    }
                    // paths
                    assert forall|p: Seq<Seq<char>>| #[trigger] children_paths(cs@).contains(p)
                        <==> children_paths(cs0).insert(tail).contains(p) by {
                        lemma_children_paths_member(cs0, p);
                        lemma_children_paths_member(cs@, p);
                        if p == tail {
                            assert(cs@[pos as int].0@ == p[0]);
                            assert(tail.drop_first() =~= tl1);
                            assert(node_paths(cs@[pos as int].1).contains(p.drop_first()));
                        } else {
                            if children_paths(cs@).contains(p) {
                                let i = choose|i: int|
                                    0 <= i < cs@.len() && (#[trigger] cs@[i].0@) == p[0]
                                        && node_paths(cs@[i].1).contains(p.drop_first());
                                if i == pos {
                                    assert(children_paths(childs0).insert(tl1).contains(
                                        p.drop_first(),
                                    ));
                                    if p.drop_first() == tl1 {
                                        assert(tail.drop_first() =~= tl1);
                                        assert forall|j: int| 1 <= j < p.len() implies p[j]
                                            == tail[j] by {
                                            assert(p.drop_first()[j - 1] == p[j]);
                                            assert(tail.drop_first()[j - 1] == tail[j]);
                                        }
                                        assert(p =~= tail);
                                        assert(false);
                                    }
                                    assert(node_paths(cs0[i].1).contains(p.drop_first()));
                                } else {
                                    assert(cs0[i] == cs@[i]);
                                }
                            }
                            if children_paths(cs0).contains(p) {
                                let i = choose|i: int|
                                    0 <= i < cs0.len() && (#[trigger] cs0[i].0@) == p[0]
                                        && node_paths(cs0[i].1).contains(p.drop_first());
                                if i == pos {
                                    assert(node_paths(cs@[i].1).contains(p.drop_first()));
                                } else {
                                    assert(cs0[i] == cs@[i]);
                                }
                            }
                        }
                    }
                    assert(children_paths(cs@) =~= children_paths(cs0).insert(tail));
                    // leaves
                    lemma_children_leaves_update(cs0, pos as int, cs@[pos as int]);
                    assert(children_paths(cs0).contains(tail) <==> children_paths(
                        childs0,
                    ).contains(tl1)) by {
                        lemma_children_paths_member(cs0, tail);
                        assert(tail.drop_first() =~= tl1);
                        if children_paths(cs0).contains(tail) {
                            let i = choose|i: int|
                                0 <= i < cs0.len() && (#[trigger] cs0[i].0@) == tail[0]
                                    && node_paths(cs0[i].1).contains(tail.drop_first());
                            assert(i == pos);
                        }
                    }
                    if slashless_children(cs0) && (forall|j: int|
                        idx <= j < parts@.len() ==> !crate::text::has_char(
                            #[trigger] parts.deep_view()[j],
                            '/',
                        )) {
                        lemma_slashless_index(cs0);
                        assert(slashless_children(childs0));
                        assert(slashless_children(new_children@));
                        assert forall|i: int| 0 <= i < cs@.len() implies !crate::text::has_char(
                            (#[trigger] cs@[i]).0@,
                            '/',
                        ) && slashless_node(cs@[i].1) by {
                            if i != pos {
                                assert(cs@[i] == cs0[i]);
                            }
                        }
                        lemma_slashless_from_index(cs@);
                    }
                }
                cs
            },
        }
    } else {
        let node: TreeNode = if last {
            TreeNode::File
        } else {
            let sub: Vec<(String, TreeNode)> = Vec::new();
            proof {
                assert(children_paths(sub@) =~= Set::<Seq<Seq<char>>>::empty());
            }
            let built = insert_into_tree(sub, parts, idx + 1);
            TreeNode::Dir(built)
        };
        let ghost nd = node;
        let ghost tl1 = tail_of(parts.deep_view(), (idx + 1) as int);
        let key = String::from_str(name.as_str());
        cs.insert(pos, (key, node));
        proof {
            assert(cs@ =~= cs0.insert(pos as int, cs@[pos as int]));
            assert(cs@[pos as int].0@ == name@ && cs@[pos as int].1 == nd);
            assert(forall|j: int| 0 <= j < pos ==> cs@[j] == cs0[j]);
            assert(forall|j: int| pos < j < cs@.len() ==> cs@[j] == cs0[j - 1]);
            // node paths of the fresh node are exactly { tail.drop_first() }
            assert(node_paths(nd) =~= set![tail.drop_first()]) by {
                if last {
                    assert(tail.drop_first() =~= Seq::<Seq<char>>::empty());
                } else {
                    assert(tl1 =~= tail.drop_first());
                    assert(node_paths(nd) =~= Set::<Seq<Seq<char>>>::empty().insert(tl1));
                }
            }
            assert(node_leaves(nd) == 1) by {
                if !last {
                    assert(children_paths(Seq::<(String, TreeNode)>::empty()).contains(tl1)
                        == false);
                }
            }
            // well-formedness
            assert forall|i: int, j: int| 0 <= i < j < cs@.len() implies lex_leq(
                #[trigger] cs@[i].0@,
                #[trigger] cs@[j].0@,
            ) && cs@[i].0@ != cs@[j].0@ by {
                let oi = if i < pos {
                    i
                } else {
                    i - 1
                };
                let oj = if j < pos {
                    j
                } else {
                    j - 1
                };
                if i == pos {
                    assert(cs@[j] == cs0[j - 1]);
                } else if j == pos {
                    assert(cs@[i] == cs0[i]);
                } else {
                    assert(cs@[i] == cs0[oi] && cs@[j] == cs0[oj]);
                    if oi == oj {
                        assert(false);
                    }
                }
            }
            assert forall|i: int| 0 <= i < cs@.len() implies wf_node(#[trigger] cs@[i].1) by {
                if i < pos {
                    assert(cs@[i].1 == cs0[i].1);
                } else if i > pos {
                    assert(cs@[i].1 == cs0[i - 1].1);
                } else {
                    if !last {
                        assert(children_paths(nd->Dir_0@).contains(tl1));
                    }
                }
            }
            // paths
            assert forall|p: Seq<Seq<char>>| #[trigger] children_paths(cs@).contains(p)
                <==> children_paths(cs0).insert(tail).contains(p) by {
                lemma_children_paths_member(cs0, p);
                lemma_children_paths_member(cs@, p);
                if p == tail {
                    assert(node_paths(cs@[pos as int].1).contains(p.drop_first()));
                } else {
                    if children_paths(cs@).contains(p) {
                        let i = choose|i: int|
                            0 <= i < cs@.len() && (#[trigger] cs@[i].0@) == p[0] && node_paths(
                                cs@[i].1,
                            ).contains(p.drop_first());
                        if i == pos {
                            assert(p.drop_first() == tail.drop_first());
                            assert(p[0] == tail[0]);
                            assert forall|j: int| 1 <= j < p.len() implies p[j] == tail[j] by {
                                assert(p.drop_first()[j - 1] == p[j]);
                                assert(tail.drop_first()[j - 1] == tail[j]);
                            }
                            assert(p =~= tail);
                            assert(false);
                        } else {
                            let oi = if i < pos {
                                i
                            } else {
                                i - 1
                            };
                            assert(cs@[i] == cs0[oi]);
                        }
                    }
                    if children_paths(cs0).contains(p) {
                        let i = choose|i: int|
                            0 <= i < cs0.len() && (#[trigger] cs0[i].0@) == p[0] && node_paths(
                                cs0[i].1,
                            ).contains(p.drop_first());
                        let ni = if i < pos {
                            i
                        } else {
                            i + 1
                        };
                        assert(cs@[ni] == cs0[i]);
                    }
                }
            }
            assert(children_paths(cs@) =~= children_paths(cs0).insert(tail));
            // the tail was absent before
            assert(!children_paths(cs0).contains(tail)) by {
                lemma_children_paths_member(cs0, tail);
            }
            lemma_children_leaves_insert(cs0, pos as int, cs@[pos as int]);
            if slashless_children(cs0) && (forall|j: int|
                idx <= j < parts@.len() ==> !crate::text::has_char(
                    #[trigger] parts.deep_view()[j],
                    '/',
                )) {
                lemma_slashless_index(cs0);
                assert(!crate::text::has_char(parts.deep_view()[idx as int], '/'));
                assert(slashless_node(nd)) by {
                    if !last {
                        assert(slashless_children(Seq::<(String, TreeNode)>::empty()));
                    }
                }
                assert forall|i: int| 0 <= i < cs@.len() implies !crate::text::has_char(
                    (#[trigger] cs@[i]).0@,
                    '/',
                ) && slashless_node(cs@[i].1) by {
                    if i < pos {
                        assert(cs@[i] == cs0[i]);
                    } else if i > pos {
                        assert(cs@[i] == cs0[i - 1]);
                    }
                }
                lemma_slashless_from_index(cs@);
            }
        }
        cs
    }
}

/// No component name anywhere in the trie contains a path separator.
pub open spec fn slashless_children(cs: Seq<(String, TreeNode)>) -> bool
    decreases cs,
{
    if cs.len() == 0 {
        true
    } else {
        !crate::text::has_char(cs[0].0@, '/') && slashless_node(cs[0].1) && slashless_children(
            cs.drop_first(),
        )
    }
}

pub open spec fn slashless_node(n: TreeNode) -> bool
    decreases n,
{
    match n {
        TreeNode::File => true,
        TreeNode::Dir(cs) => slashless_children(cs@),
    }
}

proof fn lemma_slashless_index(cs: Seq<(String, TreeNode)>)
    requires
        slashless_children(cs),
    ensures
        forall|i: int|
            0 <= i < cs.len() ==> !crate::text::has_char(#[trigger] cs[i].0@, '/')
                && slashless_node(cs[i].1),
    decreases cs,
{
    if cs.len() > 0 {
        lemma_slashless_index(cs.drop_first());
        assert forall|i: int| 0 <= i < cs.len() implies !crate::text::has_char(
            #[trigger] cs[i].0@,
            '/',
        ) && slashless_node(cs[i].1) by {
            if i > 0 {
                assert(cs.drop_first()[i - 1] == cs[i]);
            }
        }
    }
}

proof fn lemma_slashless_from_index(cs: Seq<(String, TreeNode)>)
    requires
        forall|i: int|
            0 <= i < cs.len() ==> !crate::text::has_char(#[trigger] cs[i].0@, '/')
                && slashless_node(cs[i].1),
    ensures
        slashless_children(cs),
    decreases cs,
{
    if cs.len() > 0 {
        assert(!crate::text::has_char(cs[0].0@, '/') && slashless_node(cs[0].1));
        assert forall|i: int| 0 <= i < cs.drop_first().len() implies !crate::text::has_char(
            (#[trigger] cs.drop_first()[i]).0@,
            '/',
        ) && slashless_node(cs.drop_first()[i].1) by {
            assert(cs.drop_first()[i] == cs[i + 1]);
            assert(!crate::text::has_char(cs[i + 1].0@, '/') && slashless_node(cs[i + 1].1));
        }
        lemma_slashless_from_index(cs.drop_first());
    }
}

/// Structural size of a node, for termination of the renderer.
pub open spec fn node_size(n: TreeNode) -> nat
    decreases n,
{
    match n {
        TreeNode::File => 1,
        TreeNode::Dir(cs) => 1 + children_size(cs@),
    }
}

pub open spec fn children_size(cs: Seq<(String, TreeNode)>) -> nat
    decreases cs,
{
    if cs.len() == 0 {
        0
    } else {
        node_size(cs[0].1) + children_size(cs.drop_first())
    }
}

proof fn lemma_children_size_at(cs: Seq<(String, TreeNode)>, i: int)
    requires
        0 <= i < cs.len(),
    ensures
        node_size(cs[i].1) <= children_size(cs),
    decreases i,
{
    if i > 0 {
        lemma_children_size_at(cs.drop_first(), i - 1);
    }
}

/// A row that names a file: it does not end with the directory slash.
pub open spec fn is_file_row(r: Seq<char>) -> bool {
    r.len() == 0 || r.last() != '/'
}

/// Number of file rows in a rendering.
pub open spec fn count_file_rows(rows: Seq<Seq<char>>) -> nat {
    rows.filter(|r: Seq<char>| is_file_row(r)).len()
}

proof fn lemma_count_file_rows_snoc(rows: Seq<Seq<char>>, r: Seq<char>)
    ensures
        count_file_rows(rows.push(r)) == count_file_rows(rows) + (if is_file_row(r) {
            1int
        } else {
            0int
        }),
{
    reveal(Seq::filter);
    assert(rows.push(r).drop_last() =~= rows);
}

proof fn lemma_count_file_rows_add(a: Seq<Seq<char>>, b: Seq<Seq<char>>)
    ensures
        count_file_rows(a + b) == count_file_rows(a) + count_file_rows(b),
{
    Seq::filter_distributes_over_add(a, b, |r: Seq<char>| is_file_row(r));
}

proof fn lemma_children_leaves_snoc(cs: Seq<(String, TreeNode)>, e: (String, TreeNode))
    ensures
        children_leaves(cs.push(e)) == children_leaves(cs) + node_leaves(e.1),
    decreases cs.len(),
{
    if cs.len() == 0 {
        assert(cs.push(e)[0] == e);
        assert(cs.push(e).drop_first() =~= Seq::<(String, TreeNode)>::empty());
        assert(children_leaves(cs.push(e)) == node_leaves(e.1) + children_leaves(
            Seq::<(String, TreeNode)>::empty(),
        ));
    } else {
        assert(cs.push(e)[0] == cs[0]);
        assert(cs.push(e).drop_first() =~= cs.drop_first().push(e));
        lemma_children_leaves_snoc(cs.drop_first(), e);
        assert(children_leaves(cs.push(e)) == node_leaves(cs[0].1) + children_leaves(
            cs.drop_first().push(e),
        ));
    }
}

/// Render one level of the trie: one row per child under the given
/// prefix, directories recursively below, their rows marked by a trailing
/// slash. With an unlimited depth, the appended rows hold exactly one
/// file row per file leaf.
/// The rows the renderer emits for the children from index `i` on, under
/// the given prefix: each child contributes its own row — prefix, then
/// "\u{251c}\u{2500}\u{2500} " (or "\u{2514}\u{2500}\u{2500} " for the
/// last child), then its name, a trailing slash on directories — and a
/// directory is followed by its own children's rows under the extended
/// prefix, until the depth cutoff.
pub open spec fn spec_render_from(
    cs: Seq<(String, TreeNode)>,
    i: int,
    prefix: Seq<char>,
    max_depth: int,
    cur: int,
) -> Seq<Seq<char>>
    decreases children_size(cs), cs.len() - i,
    via spec_render_from_decreases
{
    if i < 0 || i >= cs.len() {
        Seq::empty()
    } else {
        let connector = if i + 1 == cs.len() {
            "\u{2514}\u{2500}\u{2500} "@
        } else {
            "\u{251c}\u{2500}\u{2500} "@
        };
        let child_prefix = if i + 1 == cs.len() {
            "    "@
        } else {
            "\u{2502}   "@
        };
        let rest = spec_render_from(cs, i + 1, prefix, max_depth, cur);
        match cs[i].1 {
            TreeNode::File => seq![prefix + connector + cs[i].0@] + rest,
            TreeNode::Dir(children) => {
                let next = if cur == usize::MAX as int {
                    cur
                } else {
                    cur + 1
                };
                let sub = if max_depth > 0 && next >= max_depth {
                    Seq::<Seq<char>>::empty()
                } else {
                    spec_render_from(children@, 0, prefix + child_prefix, max_depth, next)
                };
                seq![prefix + connector + cs[i].0@ + seq!['/']] + sub + rest
            },
        }
    }
}

#[via_fn]
proof fn spec_render_from_decreases(
    cs: Seq<(String, TreeNode)>,
    i: int,
    prefix: Seq<char>,
    max_depth: int,
    cur: int,
) {
    if 0 <= i < cs.len() {
        lemma_children_size_at(cs, i);
    }
}

pub fn render_tree_node(
    tree: &Vec<(String, TreeNode)>,
    output: &mut Vec<String>,
    prefix: &str,
    max_depth: usize,
    current_depth: usize,
)
    requires
        slashless_children(tree@),
    ensures
        final(output)@.len() >= old(output)@.len(),
        final(output)@.take(old(output)@.len() as int) == old(output)@,
        max_depth == 0 ==> count_file_rows(
            final(output).deep_view().skip(old(output)@.len() as int),
        ) == children_leaves(tree@),
        final(output).deep_view() == old(output).deep_view() + (if max_depth > 0
            && current_depth >= max_depth {
            Seq::<Seq<char>>::empty()
        } else {
            spec_render_from(tree@, 0, prefix@, max_depth as int, current_depth as int)
        }),
    decreases children_size(tree@),
{
    if max_depth > 0 && current_depth >= max_depth {
        proof {
            assert(output@.take(output@.len() as int) =~= output@);
            assert(output.deep_view() =~= output.deep_view() + Seq::<Seq<char>>::empty());
        }
        return ;
    }
    let ghost base = output@.len() as int;
    let ghost basedeep = output.deep_view();
    proof {
        assert(basedeep.skip(base) =~= Seq::<Seq<char>>::empty());
        assert(basedeep.skip(base) + spec_render_from(
            tree@,
            0,
            prefix@,
            max_depth as int,
            current_depth as int,
        ) =~= spec_render_from(tree@, 0, prefix@, max_depth as int, current_depth as int));
        assert(basedeep.take(base) =~= basedeep);
    }
    let mut i: usize = 0;
    while i < tree.len()
        invariant
            slashless_children(tree@),
            max_depth == 0 || current_depth < max_depth,
            i <= tree@.len(),
            base == old(output)@.len(),
            output@.len() >= base,
            output@.take(base) == old(output)@,
            max_depth == 0 ==> count_file_rows(output.deep_view().skip(base)) == children_leaves(
                tree@.take(i as int),
            ),
            output.deep_view().len() == output@.len(),
            output.deep_view().take(base) == old(output).deep_view(),
            output.deep_view().skip(base) + spec_render_from(
                tree@,
                i as int,
                prefix@,
                max_depth as int,
                current_depth as int,
            ) == spec_render_from(tree@, 0, prefix@, max_depth as int, current_depth as int),
        decreases tree@.len() - i, children_size(tree@),
    {
        proof {
            lemma_slashless_index(tree@);
        }
        let is_last = i + 1 == tree.len();
        let connector: &'static str = if is_last {
            "\u{2514}\u{2500}\u{2500} "
        } else {
            "\u{251c}\u{2500}\u{2500} "
        };
        let child_prefix: &'static str = if is_last {
            "    "
        } else {
            "\u{2502}   "
        };
        let name = &tree[i].0;
        let ghost mid = output@;
        match &tree[i].1 {
            TreeNode::File => {
                let row = String::from_str(prefix).concat(connector).concat(name.as_str());
                let ghost pre = output@;
                let ghost pred = output.deep_view();
                output.push(row);
                proof {
                    reveal_strlit("\u{2514}\u{2500}\u{2500} ");
                    reveal_strlit("\u{251c}\u{2500}\u{2500} ");
                    assert(connector@.len() == 4 && connector@[3] == ' ');
                    assert(forall|j: int| 0 <= j < pre.len() ==> output@[j] == pre[j]);
                    assert(forall|j: int|
                        0 <= j < pre.len() ==> #[trigger] pred[j] == pre[j].deep_view());
                    assert(forall|j: int|
                        0 <= j < pre.len() ==> #[trigger] output.deep_view()[j] == pred[j]);
                    assert(output@.take(base) =~= old(output)@);
                    if max_depth == 0 {
                        let rowv = row@;
                        assert(is_file_row(rowv)) by {
                            if name@.len() > 0 {
                                assert(rowv.last() == name@.last());
                                assert(!crate::text::has_char(name@, '/'));
                                if name@.last() == '/' {
                                    assert(crate::text::has_char(name@, '/'));
                                }
                            } else {
                                assert(rowv.last() == connector@[3]);
                            }
                        }
                        assert(output.deep_view().skip(base) =~= pred.skip(base).push(rowv));
                        lemma_count_file_rows_snoc(pred.skip(base), rowv);
                        assert(tree@.take((i + 1) as int) =~= tree@.take(i as int).push(
                            tree@[i as int],
                        ));
                        lemma_children_leaves_snoc(tree@.take(i as int), tree@[i as int]);
                    }
                    assert(row@ =~= prefix@ + connector@ + tree@[i as int].0@);
                    assert(output.deep_view() =~= pred.push(row@));
                    assert(output.deep_view().take(base) =~= pred.take(base));
                    assert(spec_render_from(
                        tree@,
                        i as int,
                        prefix@,
                        max_depth as int,
                        current_depth as int,
                    ) == seq![prefix@ + connector@ + tree@[i as int].0@] + spec_render_from(
                        tree@,
                        i + 1,
                        prefix@,
                        max_depth as int,
                        current_depth as int,
                    ));
                    assert(output.deep_view().skip(base) =~= pred.skip(base).push(row@));
                    assert(output.deep_view().skip(base) + spec_render_from(
                        tree@,
                        i + 1,
                        prefix@,
                        max_depth as int,
                        current_depth as int,
                    ) =~= pred.skip(base) + spec_render_from(
                        tree@,
                        i as int,
                        prefix@,
                        max_depth as int,
                        current_depth as int,
                    ));
                }
            },
            TreeNode::Dir(children) => {
                let row = String::from_str(prefix).concat(connector).concat(name.as_str()).concat(
                    "/",
                );
                let ghost pre = output@;
                let ghost pred = output.deep_view();
                output.push(row);
                proof {
                    reveal_strlit("/");
                    assert(("/"@).len() == 1 && ("/"@)[0] == '/');
                    assert(forall|j: int| 0 <= j < pre.len() ==> output@[j] == pre[j]);
                    assert(forall|j: int|
                        0 <= j < pre.len() ==> #[trigger] pred[j] == pre[j].deep_view());
                    assert(forall|j: int|
                        0 <= j < pre.len() ==> #[trigger] output.deep_view()[j] == pred[j]);
                    assert(output@.take(base) =~= old(output)@);
                    if max_depth == 0 {
                        assert(!is_file_row(row@)) by {
                            assert(row@.last() == '/');
                        }
                        assert(output.deep_view().skip(base) =~= pred.skip(base).push(row@));
                        lemma_count_file_rows_snoc(pred.skip(base), row@);
                    }
                    assert(row@ =~= prefix@ + connector@ + tree@[i as int].0@ + seq!['/']);
                    assert(output.deep_view() =~= pred.push(row@));
                }
                let new_prefix = String::from_str(prefix).concat(child_prefix);
                let next_depth = if current_depth == usize::MAX {
                    current_depth
                } else {
                    current_depth + 1
                };
                let ghost before_rec = output@;
                let ghost before_rec_deep = output.deep_view();
                proof {
                    lemma_children_size_at(tree@, i as int);
                }
                render_tree_node(children, output, new_prefix.as_str(), max_depth, next_depth);
                proof {
                    assert(forall|j: int|
                        0 <= j < before_rec.len() ==> output@[j] == output@.take(
                            before_rec.len() as int,
                        )[j]);
                    assert(forall|j: int| 0 <= j < before_rec.len() ==> output@[j] == before_rec[j]);
                    assert(output@.take(base) =~= old(output)@);
                    let ghost sub = if max_depth > 0 && next_depth >= max_depth {
                        Seq::<Seq<char>>::empty()
                    } else {
                        spec_render_from(
                            children@,
                            0,
                            new_prefix@,
                            max_depth as int,
                            next_depth as int,
                        )
                    };
                    assert(output.deep_view() =~= before_rec_deep + sub);
                    assert(new_prefix@ =~= prefix@ + child_prefix@);
                    assert(before_rec_deep =~= pred.push(row@));
                    assert(spec_render_from(
                        tree@,
                        i as int,
                        prefix@,
                        max_depth as int,
                        current_depth as int,
                    ) == seq![prefix@ + connector@ + tree@[i as int].0@ + seq!['/']] + sub
                        + spec_render_from(
                        tree@,
                        i + 1,
                        prefix@,
                        max_depth as int,
                        current_depth as int,
                    ));
                    assert(output.deep_view().skip(base) =~= pred.skip(base) + seq![row@] + sub);
                    assert(output.deep_view().skip(base) + spec_render_from(
                        tree@,
                        i + 1,
                        prefix@,
                        max_depth as int,
                        current_depth as int,
                    ) =~= pred.skip(base) + spec_render_from(
                        tree@,
                        i as int,
                        prefix@,
                        max_depth as int,
                        current_depth as int,
                    ));
                    assert(output.deep_view().take(base) =~= pred.take(base));
                    if max_depth == 0 {
                        assert(forall|j: int|
                            0 <= j < before_rec.len() ==> #[trigger] output.deep_view()[j]
                                == output@[j].deep_view());
                        assert(forall|j: int|
                            0 <= j < before_rec.len() ==> #[trigger] before_rec_deep[j]
                                == before_rec[j].deep_view());
                        assert(output.deep_view().skip(base) =~= before_rec_deep.skip(base)
                            + output.deep_view().skip(before_rec.len() as int));
                        lemma_count_file_rows_add(
                            before_rec_deep.skip(base),
                            output.deep_view().skip(before_rec.len() as int),
                        );
                        assert(tree@.take((i + 1) as int) =~= tree@.take(i as int).push(
                            tree@[i as int],
                        ));
                        lemma_children_leaves_snoc(tree@.take(i as int), tree@[i as int]);
                    }
                }
            },
        }
        i += 1;
    }
    proof {
        assert(tree@.take(tree@.len() as int) =~= tree@);
        assert(spec_render_from(
            tree@,
            tree@.len() as int,
            prefix@,
            max_depth as int,
            current_depth as int,
        ) =~= Seq::<Seq<char>>::empty());
        assert(output.deep_view().skip(base) + Seq::<Seq<char>>::empty() =~= output.deep_view().skip(
            base,
        ));
        assert(output.deep_view() =~= output.deep_view().take(base) + output.deep_view().skip(base));
        assert(output.deep_view() =~= old(output).deep_view() + spec_render_from(
            tree@,
            0,
            prefix@,
            max_depth as int,
            current_depth as int,
        ));
    }
}

/// Count per language, for the structure report.
#[derive(Clone, Copy, PartialEq, Eq, Debug, Structural)]
pub struct LanguageBreakdown {
    pub language: Language,
    pub count: usize,
}

/// Number of records in `s` carrying language `l`.
#[verifier::opaque]
pub open spec fn count_lang(s: Seq<(String, FileEntry)>, l: Language) -> nat {
    s.filter(|e: (String, FileEntry)| e.1.language == l).len()
}

/// A fixed position for each language tag.
spec fn lang_rank(l: Language) -> int {
    match l {
        Language::Rust => 0,
        Language::Python => 1,
        Language::TypeScript => 2,
        Language::JavaScript => 3,
        Language::Go => 4,
        Language::Java => 5,
        Language::C => 6,
        Language::Cpp => 7,
        Language::Ruby => 8,
        Language::Shell => 9,
        Language::Markdown => 10,
        Language::Json => 11,
        Language::Yaml => 12,
        Language::Toml => 13,
        Language::Html => 14,
        Language::Css => 15,
        Language::Sql => 16,
        Language::Other => 17,
    }
}

/// Every language tag, each exactly once.
spec fn all_langs_seq() -> Seq<Language> {
    seq![
        Language::Rust,
        Language::Python,
        Language::TypeScript,
        Language::JavaScript,
        Language::Go,
        Language::Java,
        Language::C,
        Language::Cpp,
        Language::Ruby,
        Language::Shell,
        Language::Markdown,
        Language::Json,
        Language::Yaml,
        Language::Toml,
        Language::Html,
        Language::Css,
        Language::Sql,
        Language::Other,
    ]
}

proof fn lemma_all_langs_facts()
    ensures
        all_langs_seq().len() == 18,
        forall|l: Language| all_langs_seq().contains(l),
        forall|i: int, j: int|
            0 <= i < j < all_langs_seq().len() ==> all_langs_seq()[i] != all_langs_seq()[j],
{
    let a = all_langs_seq();
    assert(a[0] == Language::Rust && a[1] == Language::Python && a[2] == Language::TypeScript
        && a[3] == Language::JavaScript && a[4] == Language::Go && a[5] == Language::Java && a[6]
        == Language::C && a[7] == Language::Cpp && a[8] == Language::Ruby && a[9]
        == Language::Shell && a[10] == Language::Markdown && a[11] == Language::Json && a[12]
        == Language::Yaml && a[13] == Language::Toml && a[14] == Language::Html && a[15]
        == Language::Css && a[16] == Language::Sql && a[17] == Language::Other);
    assert forall|l: Language| a.contains(l) by {
        assert(a[lang_rank(l)] == l);
    }
    assert forall|i: int, j: int| 0 <= i < j < a.len() implies a[i] != a[j] by {
        assert(lang_rank(a[i]) == i && lang_rank(a[j]) == j);
    }
}

proof fn lemma_count_lang_empty(s: Seq<(String, FileEntry)>, l: Language)
    requires
        s.len() == 0,
    ensures
        count_lang(s, l) == 0,
{
    reveal(count_lang);
    reveal(Seq::filter);
    assert(s =~= Seq::<(String, FileEntry)>::empty());
}

proof fn lemma_count_lang_push(s: Seq<(String, FileEntry)>, e: (String, FileEntry), l: Language)
    ensures
        count_lang(s.push(e), l) == count_lang(s, l) + (if e.1.language == l {
            1int
        } else {
            0int
        }),
{
    reveal(count_lang);
    reveal(Seq::filter);
    assert(s.push(e).drop_last() =~= s);
    assert(s.push(e).last() == e);
}

/// The total of the per-row counts.
pub open spec fn spec_sum_counts(rows: Seq<LanguageBreakdown>) -> int
    decreases rows.len(),
{
    if rows.len() == 0 {
        0
    } else {
        rows[0].count + spec_sum_counts(rows.drop_first())
    }
}

spec fn sum_lang_counts(langs: Seq<Language>, s: Seq<(String, FileEntry)>) -> int
    decreases langs.len(),
{
    if langs.len() == 0 {
        0
    } else {
        count_lang(s, langs[0]) + sum_lang_counts(langs.drop_first(), s)
    }
}

spec fn occ(langs: Seq<Language>, l: Language) -> int
    decreases langs.len(),
{
    if langs.len() == 0 {
        0
    } else {
        (if langs[0] == l {
            1int
        } else {
            0int
        }) + occ(langs.drop_first(), l)
    }
}

proof fn lemma_sum_counts_push(langs: Seq<Language>, s: Seq<(String, FileEntry)>, e: (String, FileEntry))
    ensures
        sum_lang_counts(langs, s.push(e)) == sum_lang_counts(langs, s) + occ(langs, e.1.language),
    decreases langs.len(),
{
    if langs.len() > 0 {
        lemma_count_lang_push(s, e, langs[0]);
        lemma_sum_counts_push(langs.drop_first(), s, e);
    }
}

proof fn lemma_occ_zero(langs: Seq<Language>, l: Language)
    requires
        !langs.contains(l),
    ensures
        occ(langs, l) == 0,
    decreases langs.len(),
{
    if langs.len() > 0 {
        assert(langs[0] != l);
        assert(!langs.drop_first().contains(l)) by {
            if langs.drop_first().contains(l) {
                let i = choose|i: int|
                    0 <= i < langs.drop_first().len() && langs.drop_first()[i] == l;
                assert(langs[i + 1] == l);
            }
        }
        lemma_occ_zero(langs.drop_first(), l);
    }
}

proof fn lemma_occ_one(langs: Seq<Language>, l: Language)
    requires
        forall|i: int, j: int| 0 <= i < j < langs.len() ==> langs[i] != langs[j],
        langs.contains(l),
    ensures
        occ(langs, l) == 1,
    decreases langs.len(),
{
    if langs[0] == l {
        assert(!langs.drop_first().contains(l)) by {
            if langs.drop_first().contains(l) {
                let i = choose|i: int|
                    0 <= i < langs.drop_first().len() && langs.drop_first()[i] == l;
                assert(langs[i + 1] == l);
            }
        }
        lemma_occ_zero(langs.drop_first(), l);
    } else {
        assert(langs.drop_first().contains(l)) by {
            let i = choose|i: int| 0 <= i < langs.len() && langs[i] == l;
            assert(langs.drop_first()[i - 1] == l);
        }
        assert forall|i: int, j: int|
            0 <= i < j < langs.drop_first().len() implies langs.drop_first()[i]
            != langs.drop_first()[j] by {
            assert(langs[i + 1] != langs[j + 1]);
        }
        lemma_occ_one(langs.drop_first(), l);
    }
}

proof fn lemma_sum_counts_zero(langs: Seq<Language>, s: Seq<(String, FileEntry)>)
    requires
        s.len() == 0,
    ensures
        sum_lang_counts(langs, s) == 0,
    decreases langs.len(),
{
    if langs.len() > 0 {
        lemma_count_lang_empty(s, langs[0]);
        lemma_sum_counts_zero(langs.drop_first(), s);
    }
}

proof fn lemma_sum_counts_total(langs: Seq<Language>, s: Seq<(String, FileEntry)>)
    requires
        forall|i: int, j: int| 0 <= i < j < langs.len() ==> langs[i] != langs[j],
        forall|l: Language| langs.contains(l),
    ensures
        sum_lang_counts(langs, s) == s.len(),
    decreases s.len(),
{
    if s.len() == 0 {
        lemma_sum_counts_zero(langs, s);
    } else {
        let s0 = s.drop_last();
        assert(s =~= s0.push(s.last()));
        lemma_sum_counts_total(langs, s0);
        lemma_sum_counts_push(langs, s0, s.last());
        lemma_occ_one(langs, s.last().1.language);
    }
}

proof fn lemma_sum_rows_remove(rows: Seq<LanguageBreakdown>, j: int)
    requires
        0 <= j < rows.len(),
    ensures
        spec_sum_counts(rows.remove(j)) == spec_sum_counts(rows) - rows[j].count,
    decreases rows.len(),
{
    if j == 0 {
        assert(rows.remove(0) =~= rows.drop_first());
    } else {
        assert(rows.remove(j).drop_first() =~= rows.drop_first().remove(j - 1));
        assert(rows.remove(j)[0] == rows[0]);
        lemma_sum_rows_remove(rows.drop_first(), j - 1);
    }
}

proof fn lemma_rows_sum_match(
    langs: Seq<Language>,
    rows: Seq<LanguageBreakdown>,
    s: Seq<(String, FileEntry)>,
)
    requires
        forall|i: int, j: int| 0 <= i < j < langs.len() ==> langs[i] != langs[j],
        forall|a: int, b: int|
            0 <= a < b < rows.len() ==> (#[trigger] rows[a]).language != (
            #[trigger] rows[b]).language,
        forall|k: int|
            0 <= k < rows.len() ==> (#[trigger] rows[k]).count == count_lang(s, rows[k].language)
                && rows[k].count > 0,
        forall|k: int| 0 <= k < rows.len() ==> langs.contains((#[trigger] rows[k]).language),
        forall|i: int|
            0 <= i < langs.len() && count_lang(s, #[trigger] langs[i]) > 0 ==> exists|k: int|
                0 <= k < rows.len() && (#[trigger] rows[k]).language == langs[i],
    ensures
        spec_sum_counts(rows) == sum_lang_counts(langs, s),
    decreases langs.len(),
{
    if langs.len() == 0 {
        if rows.len() > 0 {
            assert(langs.contains(rows[0].language));
            assert(false);
        }
    } else {
        let l0 = langs[0];
        let rest = langs.drop_first();
        assert forall|i: int, j: int| 0 <= i < j < rest.len() implies rest[i] != rest[j] by {
            assert(langs[i + 1] != langs[j + 1]);
        }
        if exists|k: int| 0 <= k < rows.len() && (#[trigger] rows[k]).language == l0 {
            let k = choose|k: int| 0 <= k < rows.len() && (#[trigger] rows[k]).language == l0;
            let rows2 = rows.remove(k);
            lemma_sum_rows_remove(rows, k);
            assert forall|a: int, b: int|
                0 <= a < b < rows2.len() implies (#[trigger] rows2[a]).language != (
            #[trigger] rows2[b]).language by {
                let a0 = if a < k {
                    a
                } else {
                    a + 1
                };
                let b0 = if b < k {
                    b
                } else {
                    b + 1
                };
                assert(rows2[a] == rows[a0] && rows2[b] == rows[b0]);
            }
            assert forall|m: int| 0 <= m < rows2.len() implies rest.contains(
                (#[trigger] rows2[m]).language,
            ) by {
                let m0 = if m < k {
                    m
                } else {
                    m + 1
                };
                assert(rows2[m] == rows[m0]);
                assert(rows2[m].language != l0) by {
                    if m0 < k {
                        assert(rows[m0].language != rows[k].language);
                    } else {
                        assert(rows[k].language != rows[m0].language);
                    }
                }
                let i = choose|i: int| 0 <= i < langs.len() && langs[i] == rows2[m].language;
                assert(i != 0);
                assert(rest[i - 1] == rows2[m].language);
            }
            assert forall|m: int| 0 <= m < rows2.len() implies (#[trigger] rows2[m]).count
                == count_lang(s, rows2[m].language) && rows2[m].count > 0 by {
                let m0 = if m < k {
                    m
                } else {
                    m + 1
                };
                assert(rows2[m] == rows[m0]);
            }
            assert forall|i: int|
                0 <= i < rest.len() && count_lang(s, #[trigger] rest[i]) > 0 implies exists|
                m: int,
            |
                0 <= m < rows2.len() && (#[trigger] rows2[m]).language == rest[i] by {
                assert(rest[i] == langs[i + 1]);
                let k2 = choose|k2: int|
                    0 <= k2 < rows.len() && (#[trigger] rows[k2]).language == langs[i + 1];
                assert(rest[i] != l0) by {
                    assert(langs[0] != langs[i + 1]);
                }
                assert(k2 != k);
                let m = if k2 < k {
                    k2
                } else {
                    k2 - 1
                };
                assert(rows2[m] == rows[k2]);
                assert(0 <= m < rows2.len() && rows2[m].language == rest[i]);
            }
            lemma_rows_sum_match(rest, rows2, s);
        } else {
            assert(count_lang(s, l0) == 0) by {
                if count_lang(s, l0) > 0 {
                    let k = choose|k: int|
                        0 <= k < rows.len() && (#[trigger] rows[k]).language == langs[0];
                    assert(false);
                }
            }
            assert forall|m: int| 0 <= m < rows.len() implies rest.contains(
                (#[trigger] rows[m]).language,
            ) by {
                assert(rows[m].language != l0);
                let i = choose|i: int| 0 <= i < langs.len() && langs[i] == rows[m].language;
                assert(i != 0);
                assert(rest[i - 1] == rows[m].language);
            }
            assert forall|i: int|
                0 <= i < rest.len() && count_lang(s, #[trigger] rest[i]) > 0 implies exists|
                m: int,
            |
                0 <= m < rows.len() && (#[trigger] rows[m]).language == rest[i] by {
                assert(rest[i] == langs[i + 1]);
            }
            lemma_rows_sum_match(rest, rows, s);
        }
    }
}

fn all_languages() -> (r: Vec<Language>)
    ensures
        forall|l: Language| r@.contains(l),
        forall|i: int, j: int| 0 <= i < j < r@.len() ==> r@[i] != r@[j],
{
    let r: Vec<Language> = vec![
        Language::Rust,
        Language::Python,
        Language::TypeScript,
        Language::JavaScript,
        Language::Go,
        Language::Java,
        Language::C,
        Language::Cpp,
        Language::Ruby,
        Language::Shell,
        Language::Markdown,
        Language::Json,
        Language::Yaml,
        Language::Toml,
        Language::Html,
        Language::Css,
        Language::Sql,
        Language::Other,
    ];
    proof {
        assert forall|l: Language| r@.contains(l) by {
            if l == Language::Rust {
                assert(r@[0] == l);
            } else if l == Language::Python {
                assert(r@[1] == l);
            } else if l == Language::TypeScript {
                assert(r@[2] == l);
            } else if l == Language::JavaScript {
                assert(r@[3] == l);
            } else if l == Language::Go {
                assert(r@[4] == l);
            } else if l == Language::Java {
                assert(r@[5] == l);
            } else if l == Language::C {
                assert(r@[6] == l);
            } else if l == Language::Cpp {
                assert(r@[7] == l);
            } else if l == Language::Ruby {
                assert(r@[8] == l);
            } else if l == Language::Shell {
                assert(r@[9] == l);
            } else if l == Language::Markdown {
                assert(r@[10] == l);
            } else if l == Language::Json {
                assert(r@[11] == l);
            } else if l == Language::Yaml {
                assert(r@[12] == l);
            } else if l == Language::Toml {
                assert(r@[13] == l);
            } else if l == Language::Html {
                assert(r@[14] == l);
            } else if l == Language::Css {
                assert(r@[15] == l);
            } else if l == Language::Sql {
                assert(r@[16] == l);
            } else {
                assert(r@[17] == l);
            }
        }
    }
    r
}

/// The key set of the tree splits into pairwise non-nested component
/// paths, so every path can stand in the rendered trie.
pub open spec fn paths_render_cleanly(keys: Seq<Seq<char>>) -> bool {
    forall|i: int, j: int|
        0 <= i < keys.len() && 0 <= j < keys.len() && i != j ==> !strict_prefix(
            spec_split(#[trigger] keys[i], '/'),
            spec_split(#[trigger] keys[j], '/'),
        )
}

use crate::text::spec_split;
use crate::text::str_split;

/// Whether the candidate component path collides with one already
/// accepted: equal, or nested one way or the other.
fn collides(acc: &Vec<Vec<String>>, cand: &Vec<String>) -> (r: bool)
    ensures
        r == exists|i: int|
            0 <= i < acc.deep_view().len() && (#[trigger] acc.deep_view()[i] == cand.deep_view()
                || strict_prefix(acc.deep_view()[i], cand.deep_view()) || strict_prefix(
                cand.deep_view(),
                acc.deep_view()[i],
            )),
{
    let mut i: usize = 0;
    while i < acc.len()
        invariant
            i <= acc.deep_view().len(),
            acc.deep_view().len() == acc@.len(),
            forall|j: int|
                0 <= j < i ==> !(#[trigger] acc.deep_view()[j] == cand.deep_view()
                    || strict_prefix(acc.deep_view()[j], cand.deep_view()) || strict_prefix(
                    cand.deep_view(),
                    acc.deep_view()[j],
                )),
        decreases acc@.len() - i,
    {
        if components_collide(&acc[i], cand) {
            proof {
                assert(acc.deep_view()[i as int] == acc@[i as int].deep_view());
            }
            return true;
        }
        proof {
            assert(acc.deep_view()[i as int] == acc@[i as int].deep_view());
        }
        i += 1;
    }
    false
}

/// Equal, or one a strict prefix of the other.
fn components_collide(a: &Vec<String>, b: &Vec<String>) -> (r: bool)
    ensures
        r == (a.deep_view() == b.deep_view() || strict_prefix(a.deep_view(), b.deep_view())
            || strict_prefix(b.deep_view(), a.deep_view())),
{
    let n = if a.len() < b.len() {
        a.len()
    } else {
        b.len()
    };
    let mut i: usize = 0;
    while i < n
        invariant
            n == if a@.len() < b@.len() {
                a@.len()
            } else {
                b@.len()
            },
            i <= n,
            forall|j: int| 0 <= j < i ==> a.deep_view()[j] == b.deep_view()[j],
        decreases n - i,
    {
        if !str_eq(a[i].as_str(), b[i].as_str()) {
            proof {
                assert(a.deep_view()[i as int] == a@[i as int]@);
                assert(b.deep_view()[i as int] == b@[i as int]@);
                let av = a.deep_view();
                let bv = b.deep_view();
                assert(av[i as int] != bv[i as int]);
                if av == bv {
                    assert(false);
                }
                if strict_prefix(av, bv) {
                    assert(av[i as int] == bv.take(av.len() as int)[i as int]);
                    assert(false);
                }
                if strict_prefix(bv, av) {
                    assert(bv[i as int] == av.take(bv.len() as int)[i as int]);
                    assert(false);
                }
            }
            return false;
        }
        proof {
            assert(a.deep_view()[i as int] == a@[i as int]@);
            assert(b.deep_view()[i as int] == b@[i as int]@);
        }
        i += 1;
    }
    proof {
        let av = a.deep_view();
        let bv = b.deep_view();
        if av.len() == bv.len() {
            assert(av =~= bv);
        } else if av.len() < bv.len() {
            assert(av =~= bv.take(av.len() as int));
        } else {
            assert(bv =~= av.take(bv.len() as int));
        }
    }
    true
}

/// The concatenation of rendered rows, each followed by a newline.
pub open spec fn spec_rows_text(rows: Seq<Seq<char>>) -> Seq<char>
    decreases rows.len(),
{
    if rows.len() == 0 {
        Seq::empty()
    } else {
        rows[0] + seq!['\n'] + spec_rows_text(rows.drop_first())
    }
}

/// Concurrent-free file tree keyed by relative path.
pub struct FileTree {
    pub files: StrMap<FileEntry>,
}

impl FileTree {
    /// Unique keys, each record stored under its own relative path.
    pub open spec fn wf(&self) -> bool {
        &&& self.files.wf()
        &&& forall|p: Seq<char>|
            #[trigger] self.files@.contains_key(p) ==> self.files@[p].rel_path@ == p
    }

    pub fn new() -> (r: Self)
        ensures
            r.wf(),
            r.files@ == Map::<Seq<char>, FileEntry>::empty(),
            r.files.key_seq() == Seq::<Seq<char>>::empty(),
    {
        FileTree { files: StrMap::new() }
    }

    /// Insert or replace the record under its own relative path.
    pub fn insert(&mut self, entry: FileEntry)
        requires
            old(self).wf(),
        ensures
            final(self).wf(),
            final(self).files@ == old(self).files@.insert(entry.rel_path@, entry),
            final(self).files.key_seq() == if old(self).files@.contains_key(entry.rel_path@) {
                old(self).files.key_seq()
            } else {
                old(self).files.key_seq().push(entry.rel_path@)
            },
    {
        let ghost pm = self.files@;
        let key = entry.rel_path.clone();
        self.files.insert(key, entry);
        proof {
            assert forall|p: Seq<char>| #[trigger] self.files@.contains_key(p) implies self.files@[
                p].rel_path@ == p by {
                if p != entry.rel_path@ {
                    assert(self.files@[p] == pm[p]);
                }
            }
        }
    }

    /// Remove the record under a path, handing it back when present.
    pub fn remove(&mut self, rel_path: &str) -> (r: Option<FileEntry>)
        requires
            old(self).wf(),
        ensures
            final(self).wf(),
            final(self).files@ == old(self).files@.remove(rel_path@),
            match r {
                Some(e) => old(self).files@.contains_key(rel_path@) && e == old(self).files@[
                    rel_path@],
                None => !old(self).files@.contains_key(rel_path@),
            },
    {
        self.files.remove(rel_path)
    }

    /// A copy of the record under a path.
    pub fn get(&self, rel_path: &str) -> (r: Option<FileEntry>)
        ensures
            match r {
                Some(e) => self.files@.contains_key(rel_path@) && crate::file_entry::entry_equiv(
                    e,
                    self.files@[rel_path@],
                ),
                None => !self.files@.contains_key(rel_path@),
            },
    {
        match self.files.get(rel_path) {
            Some(e) => Some(e.duplicate()),
            None => None,
        }
    }

    /// Number of indexed paths.
    pub fn len(&self) -> (r: usize)
        ensures
            r == self.files.key_seq().len(),
    {
        self.files.len()
    }

    /// All indexed paths, in insertion order.
    pub fn all_paths(&self) -> (r: Vec<String>)
        ensures
            r.deep_view() == self.files.key_seq(),
    {
        self.files.keys()
    }

    /// Count of files per language: one entry per occurring language,
    /// positive counts only, ordered by descending count.
    #[verifier::rlimit(100)]
    pub fn language_breakdown(&self) -> (r: Vec<LanguageBreakdown>)
        ensures
            forall|k: int|
                0 <= k < r@.len() ==> (#[trigger] r@[k]).count == count_lang(
                    self.files.entries@,
                    r@[k].language,
                ) && r@[k].count > 0,
            forall|a: int, b: int| 0 <= a < b < r@.len() ==> r@[a].count >= r@[b].count,
            forall|a: int, b: int|
                0 <= a < b < r@.len() ==> (#[trigger] r@[a]).language != (#[trigger] r@[b]).language,
            forall|l: Language|
                count_lang(self.files.entries@, l) > 0 ==> exists|k: int|
                    0 <= k < r@.len() && (#[trigger] r@[k]).language == l,
            spec_sum_counts(r@) == self.files.entries@.len(),
    {
        let built = self.breakdown_unsorted();
        let ghost props = self.files.entries@;
        let v = sort_by_count_desc(built);
        proof {
            broadcast use vstd::seq_lib::group_to_multiset_ensures;

            assert forall|k: int| 0 <= k < v@.len() implies (#[trigger] v@[k]).count == count_lang(
                props,
                v@[k].language,
            ) && v@[k].count > 0 by {
                assert(v@.contains(v@[k]));
                assert(v@.to_multiset().contains(v@[k]));
                assert(built@.contains(v@[k]));
                let j = choose|j: int| 0 <= j < built@.len() && built@[j] == v@[k];
                assert(built@[j].count == count_lang(props, built@[j].language));
            }
            assert forall|l: Language| count_lang(props, l) > 0 implies exists|k: int|
                0 <= k < v@.len() && (#[trigger] v@[k]).language == l by {
                let j = choose|j: int|
                    0 <= j < built@.len() && (#[trigger] built@[j]).language == l;
                assert(built@.contains(built@[j]));
                assert(built@.to_multiset().contains(built@[j]));
                assert(v@.contains(built@[j]));
                let k0 = choose|k0: int| 0 <= k0 < v@.len() && v@[k0] == built@[j];
                assert(v@[k0].language == l);
            }
            lemma_all_langs_facts();
            assert forall|k: int| 0 <= k < v@.len() implies all_langs_seq().contains(
                (#[trigger] v@[k]).language,
            ) by {}
            lemma_rows_sum_match(all_langs_seq(), v@, props);
            lemma_sum_counts_total(all_langs_seq(), props);
        }
        v
    }

    /// One entry per language that occurs in the tree, in a fixed
    /// language order.
    #[verifier::loop_isolation(false)]
    fn breakdown_unsorted(&self) -> (r: Vec<LanguageBreakdown>)
        ensures
            forall|k: int|
                0 <= k < r@.len() ==> (#[trigger] r@[k]).count == count_lang(
                    self.files.entries@,
                    r@[k].language,
                ) && r@[k].count > 0,
            forall|a: int, b: int|
                0 <= a < b < r@.len() ==> (#[trigger] r@[a]).language != (#[trigger] r@[b]).language,
            forall|l: Language|
                count_lang(self.files.entries@, l) > 0 ==> exists|k: int|
                    0 <= k < r@.len() && (#[trigger] r@[k]).language == l,
    {
        let langs = all_languages();
        let mut built: Vec<LanguageBreakdown> = Vec::new();
        // src maps each built entry to its language's position; pos maps
        // each processed language position to its built entry, or -1
        let ghost mut src: Seq<int> = Seq::empty();
        let ghost mut pos: Seq<int> = Seq::empty();
        let mut li: usize = 0;
        while li < langs.len()
            invariant
                li <= langs@.len(),
                src.len() == built@.len(),
                pos.len() == li,
                forall|k: int|
                    0 <= k < built@.len() ==> 0 <= #[trigger] src[k] < li && langs@[src[k]] == built@[
                        k].language,
                forall|a: int, b: int| 0 <= a < b < src.len() ==> src[a] < src[b],
                forall|i: int|
                    0 <= i < li && count_lang(self.files.entries@, #[trigger] langs@[i]) > 0 ==> 0
                        <= pos[i] < built@.len() && built@[pos[i]].language == langs@[i],
                forall|k: int|
                    0 <= k < built@.len() ==> (#[trigger] built@[k]).count == count_lang(
                        self.files.entries@,
                        built@[k].language,
                    ) && built@[k].count > 0,
            decreases langs@.len() - li,
        {
            let l = langs[li];
            let c = self.count_language(l);
            if c > 0 {
                let ghost pre = built@;
                built.push(LanguageBreakdown { language: l, count: c });
                proof {
                    src = src.push(li as int);
                    pos = pos.push(pre.len() as int);
                    assert(forall|k: int| 0 <= k < pre.len() ==> built@[k] == pre[k]);
                    assert(built@[pre.len() as int].language == l);
                }
            } else {
                proof {
                    pos = pos.push(-1);
                }
            }
            li += 1;
        }
        proof {
            assert forall|a: int, b: int|
                0 <= a < b < built@.len() implies (#[trigger] built@[a]).language != (
                #[trigger] built@[b]).language by {
                assert(langs@[src[a]] != langs@[src[b]]);
            }
            assert forall|l: Language| count_lang(self.files.entries@, l) > 0 implies exists|
                k: int,
            | 0 <= k < built@.len() && (#[trigger] built@[k]).language == l by {
                assert(langs@.contains(l));
                let i0 = choose|i0: int| 0 <= i0 < langs@.len() && langs@[i0] == l;
                assert(built@[pos[i0]].language == l);
            }
        }
        built
    }

    /// Number of files of one language.    /// Number of files of one language.    /// Number of files of one language.    /// Number of files of one language.
    fn count_language(&self, l: Language) -> (r: usize)
        ensures
            r == count_lang(self.files.entries@, l),
    {
        let ghost all = self.files.entries@;
        let ghost pred = |e: (String, FileEntry)| e.1.language == l;
        proof {
            reveal(count_lang);
        }
        let mut c: usize = 0;
        let mut i: usize = 0;
        while i < self.files.entries.len()
            invariant
                all == self.files.entries@,
                pred == |e: (String, FileEntry)| e.1.language == l,
                i <= all.len(),
                c == all.take(i as int).filter(pred).len(),
                c <= i,
            decreases all.len() - i,
        {
            proof {
                reveal(Seq::filter);
                assert(all.take((i + 1) as int) =~= all.take(i as int).push(all[i as int]));
                assert(all.take(i as int).push(all[i as int]).drop_last() =~= all.take(i as int));
            }
            if self.files.entries[i].1.language == l {
                c += 1;
            }
            i += 1;
        }
        proof {
            reveal(count_lang);
            assert(all.take(all.len() as int) =~= all);
        }
        c
    }

    /// The rendered rows of the directory tree, one row per file or
    /// directory entry, alphabetical at each level, directories marked by
    /// a trailing slash. `depth` limits the shown levels (0 = unlimited).
    /// With unlimited depth and cleanly nested paths, exactly one file
    /// row appears per indexed path.
    pub fn structure_rows(&self, depth: usize) -> (r: Vec<String>)
        requires
            self.wf(),
        ensures
            depth == 0 && paths_render_cleanly(self.files.key_seq()) ==> count_file_rows(
                r.deep_view(),
            ) == self.files.key_seq().len(),
            exists|cs: Seq<(String, TreeNode)>|
                wf_children(cs) && slashless_children(cs) && r.deep_view() == spec_render_from(
                    cs,
                    0,
                    ""@,
                    depth as int,
                    0,
                ) && (paths_render_cleanly(self.files.key_seq()) ==> children_paths(cs)
                    == self.files.key_seq().map_values(|k: Seq<char>| spec_split(k, '/')).to_set()),
    {
        let ghost keys = self.files.key_seq();
        let paths = self.all_paths();
        let mut trie: Vec<(String, TreeNode)> = Vec::new();
        let mut acc: Vec<Vec<String>> = Vec::new();
        proof {
            assert(children_paths(trie@) =~= acc.deep_view().to_set());
            assert(acc.deep_view().to_set() =~= Set::<Seq<Seq<char>>>::empty());
        }
        let mut i: usize = 0;
        while i < paths.len()
            invariant
                self.wf(),
                keys == self.files.key_seq(),
                paths.deep_view() == keys,
                paths@.len() == keys.len(),
                i <= keys.len(),
                wf_children(trie@),
                slashless_children(trie@),
                children_paths(trie@) == acc.deep_view().to_set(),
                children_leaves(trie@) == acc.deep_view().len(),
                forall|a: int, b: int|
                    0 <= a < b < acc.deep_view().len() ==> acc.deep_view()[a] != acc.deep_view()[b],
                forall|a: int, b: int|
                    0 <= a < acc.deep_view().len() && 0 <= b < acc.deep_view().len() && a != b
                        ==> !strict_prefix(
                        #[trigger] acc.deep_view()[a],
                        #[trigger] acc.deep_view()[b],
                    ),
                forall|a: int|
                    0 <= a < acc.deep_view().len() ==> (#[trigger] acc.deep_view()[a]).len() > 0
                        && (forall|c: int|
                        0 <= c < acc.deep_view()[a].len() ==> !crate::text::has_char(
                            #[trigger] acc.deep_view()[a][c],
                            '/',
                        )),
                paths_render_cleanly(keys) && (forall|a: int, b: int|
                    0 <= a < b < keys.len() ==> keys[a] != keys[b]) ==> acc.deep_view() == keys.take(
                    i as int,
                ).map_values(|k: Seq<char>| spec_split(k, '/')),
            decreases paths@.len() - i,
        {
            let parts = str_split(paths[i].as_str(), '/');
            proof {
                assert(paths@[i as int].deep_view() == keys[i as int]);
                assert(parts.deep_view() == spec_split(keys[i as int], '/'));
                crate::text::lemma_split_segments_clean(keys[i as int], '/');
            }
            if !collides(&acc, &parts) {
                let ghost tr0 = trie@;
                proof {
                    assert(tail_of(parts.deep_view(), 0) =~= parts.deep_view());
                    assert forall|q: Seq<Seq<char>>|
                        children_paths(trie@).contains(q) implies !strict_prefix(
                        q,
                        tail_of(parts.deep_view(), 0),
                    ) && !strict_prefix(tail_of(parts.deep_view(), 0), q) by {
                        assert(acc.deep_view().to_set().contains(q));
                        let a = choose|a: int|
                            0 <= a < acc.deep_view().len() && acc.deep_view()[a] == q;
                    }
                }
                trie = insert_into_tree(trie, &parts, 0);
                let ghost accpre = acc.deep_view();
                acc.push(parts);
                proof {
                    assert(forall|a: int|
                        0 <= a < accpre.len() ==> #[trigger] acc.deep_view()[a] == accpre[a]);
                    assert(acc.deep_view()[accpre.len() as int] == parts.deep_view());
                    assert(acc.deep_view() =~= accpre.push(parts.deep_view()));
                    assert(!children_paths(tr0).contains(parts.deep_view())) by {
                        if accpre.to_set().contains(parts.deep_view()) {
                            let a = choose|a: int|
                                0 <= a < accpre.len() && accpre[a] == parts.deep_view();
                        }
                    }
                    assert(children_paths(trie@) =~= acc.deep_view().to_set()) by {
                        assert forall|q: Seq<Seq<char>>|
                            accpre.push(parts.deep_view()).to_set().contains(q) implies accpre
                            .to_set().insert(parts.deep_view()).contains(q) by {
                            let a = choose|a: int|
                                0 <= a <= accpre.len() && accpre.push(parts.deep_view())[a] == q;
                            if a < accpre.len() {
                                assert(accpre[a] == q);
                            }
                        }
                        assert forall|q: Seq<Seq<char>>|
                            accpre.to_set().insert(parts.deep_view()).contains(q) implies accpre
                            .push(parts.deep_view()).to_set().contains(q) by {
                            if q == parts.deep_view() {
                                assert(accpre.push(parts.deep_view())[accpre.len() as int] == q);
                            } else {
                                let a = choose|a: int| 0 <= a < accpre.len() && accpre[a] == q;
                                assert(accpre.push(parts.deep_view())[a] == q);
                            }
                        }
                        assert(accpre.push(parts.deep_view()).to_set() =~= accpre.to_set().insert(
                            parts.deep_view(),
                        ));
                    }
                    if paths_render_cleanly(keys) && (forall|a: int, b: int|
                        0 <= a < b < keys.len() ==> keys[a] != keys[b]) {
                        assert(accpre == keys.take(i as int).map_values(
                            |k: Seq<char>| spec_split(k, '/'),
                        ));
                        assert(acc.deep_view() =~= keys.take((i + 1) as int).map_values(
                            |k: Seq<char>| spec_split(k, '/'),
                        ));
                    }
                }
            } else {
                proof {
                    // under cleanly nested, pairwise distinct keys nothing collides
                    if paths_render_cleanly(keys) && (forall|a: int, b: int|
                        0 <= a < b < keys.len() ==> keys[a] != keys[b]) {
                        let a = choose|a: int|
                            0 <= a < acc.deep_view().len() && (#[trigger] acc.deep_view()[a]
                                == parts.deep_view() || strict_prefix(
                                acc.deep_view()[a],
                                parts.deep_view(),
                            ) || strict_prefix(parts.deep_view(), acc.deep_view()[a]));
                        let m = keys.take(i as int).map_values(|k: Seq<char>| spec_split(k, '/'));
                        assert(acc.deep_view()[a] == m[a]);
                        assert(m[a] == spec_split(keys[a], '/'));
                        if acc.deep_view()[a] == parts.deep_view() {
                            crate::text::lemma_split_injective(keys[a], keys[i as int], '/');
                        }
                        assert(false);
                    }
                }
            }
            i += 1;
        }
        let mut rows: Vec<String> = Vec::new();
        render_tree_node(&trie, &mut rows, "", depth, 0);
        proof {
            if depth == 0 && paths_render_cleanly(keys) {
                self.files.lemma_key_seq_distinct();
                assert(keys.take(keys.len() as int) =~= keys);
                assert(rows.deep_view().skip(0) =~= rows.deep_view());
                assert(acc.deep_view().len() == keys.map_values(
                    |k: Seq<char>| spec_split(k, '/'),
                ).len());
            }
            assert(!(depth > 0 && 0 >= depth as int));
            assert(rows.deep_view() =~= spec_render_from(trie@, 0, ""@, depth as int, 0));
            if paths_render_cleanly(keys) {
                self.files.lemma_key_seq_distinct();
                assert(keys.take(keys.len() as int) =~= keys);
                assert(acc.deep_view() == keys.map_values(|k: Seq<char>| spec_split(k, '/')));
                assert(children_paths(trie@) == keys.map_values(
                    |k: Seq<char>| spec_split(k, '/'),
                ).to_set());
            }
            assert(wf_children(trie@) && slashless_children(trie@) && rows.deep_view()
                == spec_render_from(trie@, 0, ""@, depth as int, 0) && (paths_render_cleanly(
                self.files.key_seq(),
            ) ==> children_paths(trie@) == self.files.key_seq().map_values(
                |k: Seq<char>| spec_split(k, '/'),
            ).to_set()));
        }
        rows
    }

    /// Render the tree as one string, each row on its own line.
    pub fn render_tree(&self, depth: usize) -> (r: String)
        requires
            self.wf(),
        ensures
            exists|rows: Seq<Seq<char>>|
                r@ == spec_rows_text(rows) && (depth == 0 && paths_render_cleanly(
                    self.files.key_seq(),
                ) ==> count_file_rows(rows) == self.files.key_seq().len()),
            exists|cs: Seq<(String, TreeNode)>|
                wf_children(cs) && slashless_children(cs) && r@ == spec_rows_text(
                    spec_render_from(cs, 0, ""@, depth as int, 0),
                ) && (paths_render_cleanly(self.files.key_seq()) ==> children_paths(cs)
                    == self.files.key_seq().map_values(|k: Seq<char>| spec_split(k, '/')).to_set()),
    {
        let rows = self.structure_rows(depth);
        let ghost cs0 = choose|cs: Seq<(String, TreeNode)>|
            wf_children(cs) && slashless_children(cs) && rows.deep_view() == spec_render_from(
                cs,
                0,
                ""@,
                depth as int,
                0,
            ) && (paths_render_cleanly(self.files.key_seq()) ==> children_paths(cs)
                == self.files.key_seq().map_values(|k: Seq<char>| spec_split(k, '/')).to_set());
        let ghost rv = rows.deep_view();
        let mut out = String::new();
        proof {
            assert(rv.skip(0) =~= rv);
            assert(out@ + spec_rows_text(rv.skip(0)) =~= spec_rows_text(rv));
        }
        let mut i: usize = 0;
        while i < rows.len()
            invariant
                rv == rows.deep_view(),
                rv.len() == rows@.len(),
                i <= rows@.len(),
                out@ + spec_rows_text(rv.skip(i as int)) == spec_rows_text(rv),
            decreases rows@.len() - i,
        {
            proof {
                reveal_strlit("\n");
                assert(("\n"@).len() == 1 && ("\n"@)[0] == '\n');
                assert(rv.skip(i as int)[0] == rv[i as int]);
                assert(rv.skip(i as int).drop_first() =~= rv.skip((i + 1) as int));
                assert(rv[i as int] == rows@[i as int]@);
            }
            let next = out.concat(rows[i].as_str()).concat("\n");
            proof {
                assert(next@ =~= out@ + rows@[i as int]@ + seq!['\n']);
                assert(next@ + spec_rows_text(rv.skip((i + 1) as int)) =~= out@ + spec_rows_text(
                    rv.skip(i as int),
                ));
            }
            out = next;
            i += 1;
        }
        proof {
            assert(rv.skip(rv.len() as int) =~= Seq::<Seq<char>>::empty());
            assert(out@ =~= spec_rows_text(rv));
            assert(wf_children(cs0) && slashless_children(cs0) && out@ == spec_rows_text(
                spec_render_from(cs0, 0, ""@, depth as int, 0),
            ) && (paths_render_cleanly(self.files.key_seq()) ==> children_paths(cs0)
                == self.files.key_seq().map_values(|k: Seq<char>| spec_split(k, '/')).to_set()));
        }
        out
    }
}

/// Order the entries by descending count, by repeated neighbour swaps.
/// The result holds the same entries as the input, their languages still
/// pairwise distinct.
fn sort_by_count_desc(v0: Vec<LanguageBreakdown>) -> (r: Vec<LanguageBreakdown>)
    requires
        forall|a: int, b: int|
            0 <= a < b < v0@.len() ==> (#[trigger] v0@[a]).language != (#[trigger] v0@[b]).language,
    ensures
        r@.len() == v0@.len(),
        forall|a: int, b: int| 0 <= a < b < r@.len() ==> r@[a].count >= r@[b].count,
        r@.to_multiset() == v0@.to_multiset(),
        forall|a: int, b: int|
            0 <= a < b < r@.len() ==> (#[trigger] r@[a]).language != (#[trigger] r@[b]).language,
{
    broadcast use vstd::seq_lib::group_to_multiset_ensures;

    let mut v = v0;
    if v.len() == 0 {
        return v;
    }
    let mut i: usize = 1;
    while i < v.len()
        invariant
            1 <= i,
            v@.len() == v0@.len(),
            forall|a: int, b: int| 0 <= a < b < i ==> v@[a].count >= v@[b].count,
            v@.to_multiset() == v0@.to_multiset(),
            forall|a: int, b: int|
                0 <= a < b < v@.len() ==> (#[trigger] v@[a]).language != (
                #[trigger] v@[b]).language,
        decreases v@.len() - i,
    {
        let mut j: usize = i;
        while j > 0 && v[j - 1].count < v[j].count
            invariant
                j <= i < v@.len(),
                v@.len() == v0@.len(),
                forall|a: int, b: int|
                    0 <= a < b <= i && a != j && b != j ==> v@[a].count >= v@[b].count,
                forall|b: int| j < b <= i ==> v@[j as int].count >= v@[b].count,
                v@.to_multiset() == v0@.to_multiset(),
                forall|a: int, b: int|
                    0 <= a < b < v@.len() ==> (#[trigger] v@[a]).language != (
                    #[trigger] v@[b]).language,
            decreases j,
        {
            let ghost prev = v@;
            let e = v.remove(j);
            v.insert(j - 1, e);
            proof {
                assert(v@.len() == prev.len());
                assert(v@[j - 1 as int] == prev[j as int]);
                assert(v@[j as int] == prev[j - 1 as int]);
                assert(forall|k: int|
                    0 <= k < v@.len() && k != j - 1 && k != j ==> v@[k] == prev[k]);
                broadcast use vstd::multiset::group_multiset_axioms;

                vstd::seq_lib::to_multiset_remove(prev, j as int);
                vstd::seq_lib::to_multiset_insert(prev.remove(j as int), j - 1, e);
                assert(v@ == prev.remove(j as int).insert(j - 1, e));
                assert(v@.to_multiset() == prev.to_multiset().remove(prev[j as int]).insert(
                    prev[j as int],
                ));
                vstd::seq_lib::to_multiset_contains(prev, prev[j as int]);
                assert(prev.contains(prev[j as int]));
                assert(v@.to_multiset() =~= prev.to_multiset());
                assert forall|a: int, b: int|
                    0 <= a < b < v@.len() implies (#[trigger] v@[a]).language != (
                    #[trigger] v@[b]).language by {
                    let oa = if a == j - 1 {
                        j as int
                    } else if a == j as int {
                        j - 1
                    } else {
                        a
                    };
                    let ob = if b == j - 1 {
                        j as int
                    } else if b == j as int {
                        j - 1
                    } else {
                        b
                    };
                    assert(v@[a] == prev[oa] && v@[b] == prev[ob]);
                    if oa != ob {
                        if oa < ob {
                            assert(prev[oa].language != prev[ob].language);
                        } else {
                            assert(prev[ob].language != prev[oa].language);
                        }
                    }
                }
            }
            j -= 1;
        }
        proof {
            assert forall|a: int, b: int| 0 <= a < b <= i implies v@[a].count >= v@[b].count by {
                if b == j as int && a < j as int {
                    if a < j - 1 {
                        assert(v@[a].count >= v@[j - 1 as int].count);
                    }
                    assert(j > 0 ==> v@[j - 1 as int].count >= v@[j as int].count);
                }
            }
        }
        i += 1;
    }
    v
}

} // verus!
