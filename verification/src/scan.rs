//! The incremental scan builder and its publication cadence.
//!
//! A `ScanState` grows a well-formed directory tree one enumerated entry at
//! a time: missing ancestor directories are created first, then the file is
//! recorded in its parent directory and its size is rolled up along the
//! ancestor chain.  Every `CADENCE` entries the builder hands out a fully
//! recomputed snapshot of everything seen so far; `finish` hands out the
//! final one.

use vstd::prelude::*;
use crate::model::Directory;
use crate::model::DirectoryV;
use crate::model::File;
use crate::model::FileV;
use crate::model::AggregateSnapshot;
use crate::model::SnapshotV;
use crate::paths::check_prefix_dir;
use crate::paths::parent_dir;
use crate::snapshot::derived_consistent;
use crate::snapshot::spec_recompute;
use crate::model::lemma_sum_own_push;
use crate::model::lemma_sum_own_update;
use crate::model::sum_own;
use crate::model::sum_sizes;
use crate::paths::is_prefix_dir;
use crate::paths::last_pos;
use crate::paths::parent_of;
use crate::paths::lemma_last_pos;
use crate::paths::lemma_next_down;
use crate::paths::lemma_parent;
use crate::paths::lemma_parent_prefix_chain;
use crate::paths::lemma_prefix_dir_nested;
use crate::paths::lemma_prefix_dir_parent;
use crate::paths::lemma_sibling_unique;

verus! {

/// Index of the directory entry at path `p`, or `-1` if there is none.
pub open spec fn dir_index(tree: Seq<DirectoryV>, p: Seq<char>) -> int
    decreases tree.len(),
{
    if tree.len() == 0 {
        -1
    } else if tree[0].path == p {
        0
    } else if dir_index(tree.drop_first(), p) == -1 {
        -1
    } else {
        1 + dir_index(tree.drop_first(), p)
    }
}

/// Whether the tree holds a directory entry at path `p`.
pub open spec fn has_dir(tree: Seq<DirectoryV>, p: Seq<char>) -> bool {
    dir_index(tree, p) >= 0
}

/// The stored combined size of the entry at path `p`, or zero if absent.
pub open spec fn combined_of(tree: Seq<DirectoryV>, p: Seq<char>) -> int {
    if has_dir(tree, p) {
        tree[dir_index(tree, p)].combined_size as int
    } else {
        0
    }
}

/// Total stored combined size over a list of child paths.
pub open spec fn sum_sub_combined(tree: Seq<DirectoryV>, subs: Seq<Seq<char>>) -> int
    decreases subs.len(),
{
    if subs.len() == 0 {
        0
    } else {
        sum_sub_combined(tree, subs.drop_last()) + combined_of(tree, subs.last())
    }
}

/// What the lookup index means: it is in range, it finds `p`, and it is
/// the first index that does.
pub proof fn lemma_dir_index(tree: Seq<DirectoryV>, p: Seq<char>)
    ensures
        -1 <= dir_index(tree, p) < tree.len(),
        dir_index(tree, p) >= 0 ==> tree[dir_index(tree, p)].path == p,
        forall|m: int| 0 <= m < dir_index(tree, p) ==> (#[trigger] tree[m]).path != p,
        dir_index(tree, p) == -1 ==> forall|m: int|
            0 <= m < tree.len() ==> (#[trigger] tree[m]).path != p,
    decreases tree.len(),
{
    if tree.len() == 0 {
    } else if tree[0].path == p {
    } else {
        lemma_dir_index(tree.drop_first(), p);
        let q = dir_index(tree.drop_first(), p);
        if q == -1 {
            assert forall|m: int| 0 <= m < tree.len() implies (#[trigger] tree[m]).path != p by {
                if m > 0 {
                    assert(tree.drop_first()[m - 1].path != p);
                }
            }
        } else {
            assert forall|m: int| 0 <= m < 1 + q implies (#[trigger] tree[m]).path != p by {
                if m > 0 {
                    assert(tree.drop_first()[m - 1].path != p);
                }
            }
            assert(tree[1 + q] == tree.drop_first()[q]);
        }
    }
}

/// With pairwise distinct paths, each entry is found at its own index.
pub proof fn lemma_dir_index_own(tree: Seq<DirectoryV>, k: int)
    requires
        0 <= k < tree.len(),
        forall|j1: int, j2: int|
            0 <= j1 < j2 < tree.len() ==> (#[trigger] tree[j1]).path != (#[trigger] tree[j2]).path,
    ensures
        dir_index(tree, tree[k].path) == k,
{
    lemma_dir_index(tree, tree[k].path);
    let i = dir_index(tree, tree[k].path);
    if i < k {
        assert(tree[i].path != tree[k].path);
        if i == -1 {
        } else {
            assert(tree[i].path == tree[k].path);
        }
        assert(false);
    }
    if i > k {
        assert(tree[k].path != tree[k].path);
        assert(false);
    }
}

/// Looking a path up is insensitive to everything but the entry paths.
pub proof fn lemma_dir_index_same_paths(t1: Seq<DirectoryV>, t2: Seq<DirectoryV>, p: Seq<char>)
    requires
        t1.len() == t2.len(),
        forall|k: int| 0 <= k < t1.len() ==> (#[trigger] t1[k]).path == (#[trigger] t2[k]).path,
    ensures
        dir_index(t1, p) == dir_index(t2, p),
    decreases t1.len(),
{
    if t1.len() == 0 {
    } else {
        assert forall|k: int| 0 <= k < t1.drop_first().len() implies (#[trigger] t1.drop_first()[k]).path
            == (#[trigger] t2.drop_first()[k]).path by {
            assert(t1[k + 1].path == t2[k + 1].path);
        }
        lemma_dir_index_same_paths(t1.drop_first(), t2.drop_first(), p);
        assert(t1[0].path == t2[0].path);
    }
}

/// Appending an entry does not move any present path, and makes the new
/// path found at the end.
pub proof fn lemma_dir_index_push(tree: Seq<DirectoryV>, d: DirectoryV, p: Seq<char>)
    ensures
        dir_index(tree, p) >= 0 ==> dir_index(tree.push(d), p) == dir_index(tree, p),
        dir_index(tree, p) == -1 && d.path == p ==> dir_index(tree.push(d), p) == tree.len(),
        dir_index(tree, p) == -1 && d.path != p ==> dir_index(tree.push(d), p) == -1,
    decreases tree.len(),
{
    if tree.len() == 0 {
        assert(tree.push(d).len() == 1);
        assert(dir_index(tree, p) == -1);
        assert(tree.push(d)[0] == d);
        if d.path == p {
            assert(dir_index(tree.push(d), p) == 0);
        } else {
            assert(tree.push(d).drop_first() =~= Seq::<DirectoryV>::empty());
            assert(dir_index(Seq::<DirectoryV>::empty(), p) == -1);
            assert(dir_index(tree.push(d), p) == -1);
        }
    } else {
        assert(tree.push(d).drop_first() =~= tree.drop_first().push(d));
        lemma_dir_index_push(tree.drop_first(), d, p);
        lemma_dir_index(tree.drop_first(), p);
        lemma_dir_index(tree.drop_first().push(d), p);
        assert(tree.push(d)[0] == tree[0]);
        if tree[0].path == p {
            assert(dir_index(tree, p) == 0);
            assert(dir_index(tree.push(d), p) == 0);
        } else {
            let sub = dir_index(tree.drop_first(), p);
            assert(dir_index(tree, p) == if sub == -1 {
                -1
            } else {
                1 + sub
            });
            let subp = dir_index(tree.drop_first().push(d), p);
            assert(dir_index(tree.push(d), p) == if subp == -1 {
                -1
            } else {
                1 + subp
            });
            if sub == -1 && d.path == p {
                assert(subp == tree.drop_first().len());
                assert(dir_index(tree.push(d), p) == tree.len());
            }
            if sub == -1 && d.path != p {
                assert(subp == -1);
                assert(dir_index(tree.push(d), p) == -1);
            }
            if sub >= 0 {
                assert(subp == sub);
                assert(dir_index(tree.push(d), p) == 1 + sub);
            }
        }
    }
}

/// Sums over child paths are insensitive to tree changes that keep every
/// child's stored combined size.
pub proof fn lemma_sum_sub_stable(t1: Seq<DirectoryV>, t2: Seq<DirectoryV>, subs: Seq<Seq<char>>)
    requires
        forall|i: int|
            0 <= i < subs.len() ==> combined_of(t1, #[trigger] subs[i]) == combined_of(t2, subs[i]),
    ensures
        sum_sub_combined(t1, subs) == sum_sub_combined(t2, subs),
    decreases subs.len(),
{
    if subs.len() > 0 {
        assert forall|i: int| 0 <= i < subs.drop_last().len() implies combined_of(
            t1,
            #[trigger] subs.drop_last()[i],
        ) == combined_of(t2, subs.drop_last()[i]) by {
            assert(combined_of(t1, subs[i]) == combined_of(t2, subs[i]));
        }
        lemma_sum_sub_stable(t1, t2, subs.drop_last());
        assert(combined_of(t1, subs.last()) == combined_of(t2, subs.last()));
    }
}

/// Appending a fresh path to a child list adds that child's stored
/// combined size to the sum.
pub proof fn lemma_sum_sub_push(tree: Seq<DirectoryV>, subs: Seq<Seq<char>>, c: Seq<char>)
    ensures
        sum_sub_combined(tree, subs.push(c)) == sum_sub_combined(tree, subs) + combined_of(tree, c),
{
    assert(subs.push(c).drop_last() =~= subs);
}

/// When exactly one child's stored combined size moves by `delta`, the sum
/// over a duplicate-free child list containing it moves by `delta`.
pub proof fn lemma_sum_sub_one_change(
    t1: Seq<DirectoryV>,
    t2: Seq<DirectoryV>,
    subs: Seq<Seq<char>>,
    c: Seq<char>,
    delta: int,
)
    requires
        subs.contains(c),
        forall|i1: int, i2: int| 0 <= i1 < i2 < subs.len() ==> subs[i1] != subs[i2],
        forall|i: int|
            0 <= i < subs.len() && subs[i] != c ==> combined_of(t2, #[trigger] subs[i])
                == combined_of(t1, subs[i]),
        combined_of(t2, c) == combined_of(t1, c) + delta,
    ensures
        sum_sub_combined(t2, subs) == sum_sub_combined(t1, subs) + delta,
    decreases subs.len(),
{
    let n = subs.len() as int;
    if subs.last() == c {
        assert forall|i: int| 0 <= i < subs.drop_last().len() implies combined_of(
            t1,
            #[trigger] subs.drop_last()[i],
        ) == combined_of(t2, subs.drop_last()[i]) by {
            assert(subs[i] != c);
            assert(combined_of(t2, subs[i]) == combined_of(t1, subs[i]));
        }
        lemma_sum_sub_stable(t1, t2, subs.drop_last());
    } else {
        let j = choose|j: int| 0 <= j < n && subs[j] == c;
        assert(subs.drop_last()[j] == c);
        assert(subs.drop_last().contains(c));
        assert forall|i1: int, i2: int| 0 <= i1 < i2 < subs.drop_last().len() implies subs.drop_last()[i1]
            != subs.drop_last()[i2] by {
            assert(subs[i1] != subs[i2]);
        }
        assert forall|i: int|
            0 <= i < subs.drop_last().len() && subs.drop_last()[i] != c implies combined_of(
            t2,
            #[trigger] subs.drop_last()[i],
        ) == combined_of(t1, subs.drop_last()[i]) by {
            assert(combined_of(t2, subs[i]) == combined_of(t1, subs[i]));
        }
        lemma_sum_sub_one_change(t1, t2, subs.drop_last(), c, delta);
        assert(combined_of(t2, subs.last()) == combined_of(t1, subs.last()));
    }
}

/// A well-formed directory tree: a rooted arena with pairwise distinct
/// paths, parent entries present and created before their children, child
/// links that agree with the parent relation, duplicate-free child lists,
/// and stored sizes satisfying the rollup equations.
pub open spec fn tree_wf(tree: Seq<DirectoryV>, root: Seq<char>) -> bool {
    &&& tree.len() >= 1
    &&& tree[0].path == root
    &&& forall|j1: int, j2: int|
        0 <= j1 < j2 < tree.len() ==> (#[trigger] tree[j1]).path != (#[trigger] tree[j2]).path
    &&& forall|k: int| 1 <= k < tree.len() ==> is_prefix_dir(root, (#[trigger] tree[k]).path)
    &&& forall|k: int|
        1 <= k < tree.len() ==> 0 <= dir_index(tree, parent_of((#[trigger] tree[k]).path)) < k
    &&& forall|k: int|
        1 <= k < tree.len() ==> tree[dir_index(
            tree,
            parent_of((#[trigger] tree[k]).path),
        )].subdirectories.contains(tree[k].path)
    &&& forall|k: int, i: int|
        0 <= k < tree.len() && 0 <= i < tree[k].subdirectories.len() ==> {
            let c = #[trigger] tree[k].subdirectories[i];
            &&& k < dir_index(tree, c) < tree.len()
            &&& parent_of(c) == tree[k].path
        }
    &&& forall|k: int, i1: int, i2: int|
        0 <= k < tree.len() && 0 <= i1 < i2 < tree[k].subdirectories.len() ==> (
        #[trigger] tree[k].subdirectories[i1]) != (#[trigger] tree[k].subdirectories[i2])
    &&& forall|k: int|
        0 <= k < tree.len() ==> (#[trigger] tree[k]).own_size == sum_sizes(tree[k].files)
    &&& forall|k: int|
        0 <= k < tree.len() ==> (#[trigger] tree[k]).combined_size == tree[k].own_size
            + sum_sub_combined(tree, tree[k].subdirectories)
    &&& forall|k: int, m: int|
        0 <= k < tree.len() && 0 <= m < tree[k].files.len() ==> parent_of(
            (#[trigger] tree[k].files[m]).path,
        ) == tree[k].path && is_prefix_dir(root, tree[k].files[m].path)
}

/// Every ancestor directory of a present path, down to the root, is
/// present too.
pub proof fn lemma_ancestor_present(
    tree: Seq<DirectoryV>,
    root: Seq<char>,
    q: Seq<char>,
    r: Seq<char>,
)
    requires
        tree_wf(tree, root),
        has_dir(tree, q),
        q == root || is_prefix_dir(root, q),
        r == root || (is_prefix_dir(root, r) && is_prefix_dir(r, q)),
    ensures
        has_dir(tree, r),
    decreases q.len(),
{
    lemma_dir_index(tree, q);
    lemma_dir_index(tree, root);
    if r == root {
        lemma_dir_index_own(tree, 0);
    } else {
        assert(q != root) by {
            if q == root {
                assert(r.len() < q.len());
                assert(root.len() < r.len());
            }
        }
        let kq = dir_index(tree, q);
        assert(kq >= 1) by {
            if kq == 0 {
                assert(tree[0].path == root);
            }
        }
        assert(tree[kq].path == q);
        lemma_parent(root, q);
        let pq = parent_of(q);
        assert(has_dir(tree, pq)) by {
            assert(0 <= dir_index(tree, parent_of(tree[kq].path)) < kq);
        }
        if r == pq {
        } else {
            lemma_last_pos(q, '/');
            assert(q[r.len() as int] == '/');
            assert(r.len() <= last_pos(q, '/'));
            assert(r.len() != last_pos(q, '/')) by {
                if r.len() == last_pos(q, '/') {
                    assert(r =~= pq) by {
                        assert(r == q.take(r.len() as int));
                        assert(pq == q.take(last_pos(q, '/')));
                    }
                }
            }
            lemma_prefix_dir_parent(r, q);
            lemma_ancestor_present(tree, root, pq, r);
        }
    }
}

/// A directory entry as first created: empty, with everything still to be
/// rolled up.
pub open spec fn new_dir(q: Seq<char>) -> DirectoryV {
    DirectoryV {
        path: q,
        own_size: 0,
        combined_size: 0,
        files: Seq::empty(),
        subdirectories: Seq::empty(),
    }
}

/// The tree after creating the directory `q`: `q` is appended as a fresh
/// empty entry and registered as a child of its (present) parent.
#[verifier::opaque]
pub open spec fn spec_create_dir(t: Seq<DirectoryV>, q: Seq<char>) -> Seq<DirectoryV> {
    let pj = dir_index(t, parent_of(q));
    let pd = t[pj];
    t.update(
        pj,
        DirectoryV { subdirectories: pd.subdirectories.push(q), ..pd },
    ).push(new_dir(q))
}

/// Creating a directory, entry by entry: the parent's child list gains the
/// new path, a fresh empty entry is appended, and nothing else moves.
pub proof fn lemma_create_basic(t: Seq<DirectoryV>, q: Seq<char>)
    requires
        has_dir(t, parent_of(q)),
    ensures
        spec_create_dir(t, q).len() == t.len() + 1,
        spec_create_dir(t, q)[t.len() as int] == new_dir(q),
        spec_create_dir(t, q)[dir_index(t, parent_of(q))] == (DirectoryV {
            subdirectories: t[dir_index(t, parent_of(q))].subdirectories.push(q),
            ..t[dir_index(t, parent_of(q))]
        }),
        forall|k: int|
            0 <= k < t.len() && k != dir_index(t, parent_of(q))
                ==> #[trigger] spec_create_dir(t, q)[k] == t[k],
        forall|p: Seq<char>|
            dir_index(t, p) >= 0 ==> #[trigger] dir_index(spec_create_dir(t, q), p) == dir_index(
                t,
                p,
            ),
        dir_index(t, q) == -1 ==> dir_index(spec_create_dir(t, q), q) == t.len(),
        forall|p: Seq<char>|
            dir_index(t, p) == -1 && p != q ==> #[trigger] dir_index(spec_create_dir(t, q), p)
                == -1,
{
    reveal(spec_create_dir);
    lemma_dir_index(t, parent_of(q));
    let pj = dir_index(t, parent_of(q));
    let pd = t[pj];
    let pd2 = DirectoryV { subdirectories: pd.subdirectories.push(q), ..pd };
    let t1 = t.update(pj, pd2);
    let nd = new_dir(q);
    let t2 = t1.push(nd);
    assert(spec_create_dir(t, q) == t2);
    assert forall|p: Seq<char>| true implies #[trigger] dir_index(t2, p) == (if dir_index(t, p)
        >= 0 {
        dir_index(t, p)
    } else if p == q {
        t.len() as int
    } else {
        -1int
    }) by {
        lemma_dir_index_same_paths(t, t1, p);
        lemma_dir_index_push(t1, nd, p);
        lemma_dir_index(t, p);
    }
}

/// The rollup equations survive creating a directory: the new entry is
/// empty and contributes nothing to its parent's child sum.
proof fn lemma_create_dir_sums(t: Seq<DirectoryV>, root: Seq<char>, q: Seq<char>, k: int)
    requires
        tree_wf(t, root),
        is_prefix_dir(root, q),
        has_dir(t, parent_of(q)),
        !has_dir(t, q),
        0 <= k < spec_create_dir(t, q).len(),
    ensures
        spec_create_dir(t, q)[k].combined_size == spec_create_dir(t, q)[k].own_size
            + sum_sub_combined(spec_create_dir(t, q), spec_create_dir(t, q)[k].subdirectories),
{
    let n = t.len() as int;
    let t2 = spec_create_dir(t, q);
    lemma_create_basic(t, q);
    lemma_dir_index(t, parent_of(q));
    lemma_dir_index(t, q);
    let pj = dir_index(t, parent_of(q));
    assert(sum_sub_combined(t2, Seq::<Seq<char>>::empty()) == 0);
    if k == n {
        assert(t2[k] == new_dir(q));
    } else {
        assert forall|i: int|
            0 <= i < t[k].subdirectories.len() implies combined_of(
            t2,
            #[trigger] t[k].subdirectories[i],
        ) == combined_of(t, t[k].subdirectories[i]) by {
            let c = t[k].subdirectories[i];
            let m = dir_index(t, c);
            assert(k < m < n);
            assert(dir_index(t2, c) == m);
            assert(t2[m].combined_size == t[m].combined_size) by {
                if m == pj {
                } else {
                    assert(t2[m] == t[m]);
                }
            }
        }
        lemma_sum_sub_stable(t2, t, t[k].subdirectories);
        if k == pj {
            lemma_sum_sub_push(t2, t[k].subdirectories, q);
            assert(dir_index(t2, q) == n);
            assert(t2[n] == new_dir(q));
            assert(combined_of(t2, q) == 0);
            assert(t2[k].combined_size == t[k].combined_size);
            assert(t2[k].own_size == t[k].own_size);
            assert(t2[k].subdirectories == t[k].subdirectories.push(q));
        } else {
            assert(t2[k] == t[k]);
        }
    }
}

#[verifier::rlimit(100)]
#[verifier::spinoff_prover]
proof fn lemma_create_parents_linked(t: Seq<DirectoryV>, root: Seq<char>, q: Seq<char>)
    requires
        tree_wf(t, root),
        is_prefix_dir(root, q),
        has_dir(t, parent_of(q)),
        !has_dir(t, q),
    ensures
        forall|k: int|
            1 <= k < spec_create_dir(t, q).len() ==> {
                &&& 0 <= dir_index(
                    spec_create_dir(t, q),
                    parent_of((#[trigger] spec_create_dir(t, q)[k]).path),
                ) < k
                &&& spec_create_dir(t, q)[dir_index(
                    spec_create_dir(t, q),
                    parent_of(spec_create_dir(t, q)[k].path),
                )].subdirectories.contains(spec_create_dir(t, q)[k].path)
            },
{
    let n = t.len() as int;
    let t2 = spec_create_dir(t, q);
    lemma_create_basic(t, q);
    lemma_dir_index(t, parent_of(q));
    lemma_dir_index(t, q);
    let pj = dir_index(t, parent_of(q));
    let pd = t[pj];
    assert(t[pj].path == parent_of(q));
    assert forall|k: int| 1 <= k < t2.len() implies 0 <= dir_index(
        t2,
        parent_of((#[trigger] t2[k]).path),
    ) < k && t2[dir_index(t2, parent_of(t2[k].path))].subdirectories.contains(t2[k].path) by {
        if k < n {
            let pk = dir_index(t, parent_of(t[k].path));
            assert(0 <= pk < k);
            assert(t2[k].path == t[k].path) by {
                if k != pj {
                    assert(t2[k] == t[k]);
                }
            }
            assert(dir_index(t2, parent_of(t2[k].path)) == pk);
            assert(t[pk].subdirectories.contains(t[k].path));
            let wi = choose|wi: int|
                0 <= wi < t[pk].subdirectories.len() && t[pk].subdirectories[wi] == t[k].path;
            if pk == pj {
                assert(t2[pk].subdirectories[wi] == t[k].path);
            } else {
                assert(t2[pk] == t[pk]);
            }
            assert(t2[pk].subdirectories.contains(t2[k].path));
        } else {
            assert(t2[k] == new_dir(q));
            assert(dir_index(t2, parent_of(q)) == pj);
            assert(t2[pj].subdirectories == pd.subdirectories.push(q));
            assert(t2[pj].subdirectories[pd.subdirectories.len() as int] == q);
            assert(t2[pj].subdirectories.contains(q));
        }
    }
}

#[verifier::rlimit(100)]
#[verifier::spinoff_prover]
proof fn lemma_create_children_forward(t: Seq<DirectoryV>, root: Seq<char>, q: Seq<char>)
    requires
        tree_wf(t, root),
        is_prefix_dir(root, q),
        has_dir(t, parent_of(q)),
        !has_dir(t, q),
    ensures
        forall|k: int, i: int|
            0 <= k < spec_create_dir(t, q).len() && 0 <= i < spec_create_dir(
                t,
                q,
            )[k].subdirectories.len() ==> {
                &&& k < dir_index(
                    spec_create_dir(t, q),
                    #[trigger] spec_create_dir(t, q)[k].subdirectories[i],
                ) < spec_create_dir(t, q).len()
                &&& parent_of(spec_create_dir(t, q)[k].subdirectories[i]) == spec_create_dir(
                    t,
                    q,
                )[k].path
            },
{
    let n = t.len() as int;
    let t2 = spec_create_dir(t, q);
    lemma_create_basic(t, q);
    lemma_dir_index(t, parent_of(q));
    lemma_dir_index(t, q);
    let pj = dir_index(t, parent_of(q));
    let pd = t[pj];
    assert(t[pj].path == parent_of(q));
    assert forall|k: int, i: int|
        0 <= k < t2.len() && 0 <= i < t2[k].subdirectories.len() implies {
        let c = #[trigger] t2[k].subdirectories[i];
        &&& k < dir_index(t2, c) < t2.len()
        &&& parent_of(c) == t2[k].path
    } by {
        if k == n {
            assert(t2[k] == new_dir(q));
        } else if k == pj && i == pd.subdirectories.len() {
            assert(t2[k].subdirectories[i] == q);
            assert(dir_index(t2, q) == n);
            assert(t[pj].path == parent_of(q));
        } else {
            assert(t2[k].subdirectories[i] == t[k].subdirectories[i]) by {
                if k != pj {
                    assert(t2[k] == t[k]);
                }
            }
            let c = t[k].subdirectories[i];
            assert(k < dir_index(t, c) < n);
            assert(dir_index(t2, c) == dir_index(t, c));
            assert(t2[k].path == t[k].path) by {
                if k != pj {
                    assert(t2[k] == t[k]);
                }
            }
        }
    }
}

#[verifier::rlimit(100)]
#[verifier::spinoff_prover]
proof fn lemma_create_children_nodup(t: Seq<DirectoryV>, root: Seq<char>, q: Seq<char>)
    requires
        tree_wf(t, root),
        is_prefix_dir(root, q),
        has_dir(t, parent_of(q)),
        !has_dir(t, q),
    ensures
        forall|k: int, i1: int, i2: int|
            0 <= k < spec_create_dir(t, q).len() && 0 <= i1 < i2 < spec_create_dir(
                t,
                q,
            )[k].subdirectories.len() ==> (#[trigger] spec_create_dir(t, q)[k].subdirectories[i1])
                != (#[trigger] spec_create_dir(t, q)[k].subdirectories[i2]),
{
    let n = t.len() as int;
    let t2 = spec_create_dir(t, q);
    lemma_create_basic(t, q);
    lemma_dir_index(t, parent_of(q));
    lemma_dir_index(t, q);
    let pj = dir_index(t, parent_of(q));
    let pd = t[pj];
    assert(t[pj].path == parent_of(q));
    assert forall|k: int, i1: int, i2: int|
        0 <= k < t2.len() && 0 <= i1 < i2 < t2[k].subdirectories.len() implies (
    #[trigger] t2[k].subdirectories[i1]) != (#[trigger] t2[k].subdirectories[i2]) by {
        if k == pj && i2 == pd.subdirectories.len() {
            assert(t2[k].subdirectories[i1] == t[k].subdirectories[i1]);
            assert(t2[k].subdirectories[i2] == q);
            if t[k].subdirectories[i1] == q {
                assert(dir_index(t, q) > k);
            }
        } else if k < n {
            assert(t2[k].subdirectories == t[k].subdirectories || t2[k].subdirectories
                == t[k].subdirectories.push(q)) by {
                if k != pj {
                    assert(t2[k] == t[k]);
                }
            }
            assert(t2[k].subdirectories[i1] == t[k].subdirectories[i1]);
            assert(t2[k].subdirectories[i2] == t[k].subdirectories[i2]);
        } else {
            assert(t2[k] == new_dir(q));
        }
    }
}

#[verifier::rlimit(100)]
#[verifier::spinoff_prover]
proof fn lemma_create_sizes_files(t: Seq<DirectoryV>, root: Seq<char>, q: Seq<char>)
    requires
        tree_wf(t, root),
        is_prefix_dir(root, q),
        has_dir(t, parent_of(q)),
        !has_dir(t, q),
    ensures
        forall|k: int|
            0 <= k < spec_create_dir(t, q).len() ==> (#[trigger] spec_create_dir(t, q)[k]).own_size
                == sum_sizes(spec_create_dir(t, q)[k].files),
        forall|k: int, m: int|
            0 <= k < spec_create_dir(t, q).len() && 0 <= m < spec_create_dir(t, q)[k].files.len()
                ==> parent_of((#[trigger] spec_create_dir(t, q)[k].files[m]).path)
                == spec_create_dir(t, q)[k].path && is_prefix_dir(
                root,
                spec_create_dir(t, q)[k].files[m].path,
            ),
{
    let n = t.len() as int;
    let t2 = spec_create_dir(t, q);
    lemma_create_basic(t, q);
    lemma_dir_index(t, parent_of(q));
    lemma_dir_index(t, q);
    let pj = dir_index(t, parent_of(q));
    let pd = t[pj];
    assert(t[pj].path == parent_of(q));
    assert(sum_sizes(Seq::<FileV>::empty()) == 0);
    assert forall|k: int| 0 <= k < t2.len() implies (#[trigger] t2[k]).own_size == sum_sizes(
        t2[k].files,
    ) by {
        if k == n {
            assert(t2[k] == new_dir(q));
        } else if k == pj {
        } else {
            assert(t2[k] == t[k]);
        }
    }
    assert forall|k: int, m: int|
        0 <= k < t2.len() && 0 <= m < t2[k].files.len() implies parent_of(
        (#[trigger] t2[k].files[m]).path,
    ) == t2[k].path && is_prefix_dir(root, t2[k].files[m].path) by {
        if k < n {
            assert(t2[k].files == t[k].files && t2[k].path == t[k].path) by {
                if k != pj {
                    assert(t2[k] == t[k]);
                }
            }
        } else {
            assert(t2[k] == new_dir(q));
        }
    }
}

/// Distinctness and rootedness of the paths after creating a directory.
#[verifier::rlimit(100)]
#[verifier::spinoff_prover]
proof fn lemma_create_paths(t: Seq<DirectoryV>, root: Seq<char>, q: Seq<char>)
    requires
        tree_wf(t, root),
        is_prefix_dir(root, q),
        has_dir(t, parent_of(q)),
        !has_dir(t, q),
    ensures
        spec_create_dir(t, q)[0].path == root,
        forall|j1: int, j2: int|
            0 <= j1 < j2 < spec_create_dir(t, q).len() ==> (#[trigger] spec_create_dir(t, q)[j1]).path
                != (#[trigger] spec_create_dir(t, q)[j2]).path,
        forall|k: int|
            1 <= k < spec_create_dir(t, q).len() ==> is_prefix_dir(
                root,
                (#[trigger] spec_create_dir(t, q)[k]).path,
            ),
{
    let n = t.len() as int;
    let t2 = spec_create_dir(t, q);
    lemma_create_basic(t, q);
    lemma_dir_index(t, parent_of(q));
    lemma_dir_index(t, q);
    let pj = dir_index(t, parent_of(q));
    assert(t2[0].path == root) by {
        if pj != 0 {
            assert(t2[0] == t[0]);
        }
    }
    assert forall|j1: int, j2: int| 0 <= j1 < j2 < t2.len() implies (#[trigger] t2[j1]).path != (
    #[trigger] t2[j2]).path by {
        if j2 < n {
            assert(t[j1].path != t[j2].path);
        } else {
            assert(t[j1].path != q);
            assert(t2[j2].path == q);
        }
    }
    assert forall|k: int| 1 <= k < t2.len() implies is_prefix_dir(
        root,
        (#[trigger] t2[k]).path,
    ) by {
        if k < n {
            assert(t2[k].path == t[k].path);
        } else {
            assert(t2[k].path == q);
        }
    }
}

/// The rollup equations after creating a directory.
#[verifier::rlimit(100)]
#[verifier::spinoff_prover]
proof fn lemma_create_rollup(t: Seq<DirectoryV>, root: Seq<char>, q: Seq<char>)
    requires
        tree_wf(t, root),
        is_prefix_dir(root, q),
        has_dir(t, parent_of(q)),
        !has_dir(t, q),
    ensures
        forall|k: int|
            0 <= k < spec_create_dir(t, q).len() ==> (#[trigger] spec_create_dir(
                t,
                q,
            )[k]).combined_size == spec_create_dir(t, q)[k].own_size + sum_sub_combined(
                spec_create_dir(t, q),
                spec_create_dir(t, q)[k].subdirectories,
            ),
{
    assert forall|k: int| 0 <= k < spec_create_dir(t, q).len() implies (
    #[trigger] spec_create_dir(t, q)[k]).combined_size == spec_create_dir(t, q)[k].own_size
        + sum_sub_combined(spec_create_dir(t, q), spec_create_dir(t, q)[k].subdirectories) by {
        lemma_create_dir_sums(t, root, q, k);
    }
}

/// Well-formedness of the tree after creating a directory.
#[verifier::rlimit(100)]
#[verifier::spinoff_prover]
proof fn lemma_create_tree_wf(t: Seq<DirectoryV>, root: Seq<char>, q: Seq<char>)
    requires
        tree_wf(t, root),
        is_prefix_dir(root, q),
        has_dir(t, parent_of(q)),
        !has_dir(t, q),
    ensures
        tree_wf(spec_create_dir(t, q), root),
{
    lemma_create_basic(t, q);
    lemma_create_paths(t, root, q);
    lemma_create_parents_linked(t, root, q);
    lemma_create_children_forward(t, root, q);
    lemma_create_children_nodup(t, root, q);
    lemma_create_sizes_files(t, root, q);
    lemma_create_rollup(t, root, q);
}

/// Creating a missing directory under a present parent preserves
/// well-formedness and moves no size: the new entry is empty, every old
/// entry keeps its place, path and sizes.
#[verifier::rlimit(100)]
#[verifier::spinoff_prover]
pub proof fn lemma_create_dir_wf(t: Seq<DirectoryV>, root: Seq<char>, q: Seq<char>)
    requires
        tree_wf(t, root),
        is_prefix_dir(root, q),
        has_dir(t, parent_of(q)),
        !has_dir(t, q),
    ensures
        tree_wf(spec_create_dir(t, q), root),
        spec_create_dir(t, q).len() == t.len() + 1,
        spec_create_dir(t, q)[t.len() as int] == new_dir(q),
        forall|k: int|
            0 <= k < t.len() ==> {
                let d2 = #[trigger] spec_create_dir(t, q)[k];
                d2.path == t[k].path && d2.own_size == t[k].own_size && d2.combined_size == t[
                    k
                ].combined_size && d2.files == t[k].files
            },
        sum_own(spec_create_dir(t, q)) == sum_own(t),
        forall|p: Seq<char>|
            dir_index(t, p) >= 0 ==> #[trigger] dir_index(spec_create_dir(t, q), p) == dir_index(
                t,
                p,
            ),
        dir_index(spec_create_dir(t, q), q) == t.len(),
        forall|p: Seq<char>|
            dir_index(t, p) == -1 && p != q ==> #[trigger] dir_index(spec_create_dir(t, q), p)
                == -1,
{
    let t2 = spec_create_dir(t, q);
    lemma_create_basic(t, q);
    lemma_create_tree_wf(t, root, q);
    lemma_dir_index(t, parent_of(q));
    lemma_dir_index(t, q);
    let pj = dir_index(t, parent_of(q));
    let pd = t[pj];
    let pd2 = DirectoryV { subdirectories: pd.subdirectories.push(q), ..pd };
    assert(t2 =~= t.update(pj, pd2).push(new_dir(q))) by {
        reveal(spec_create_dir);
    }
    lemma_sum_own_update(t, pj, pd2);
    lemma_sum_own_push(t.update(pj, pd2), new_dir(q));
}

/// The tree after recording file `f`: the file joins its parent directory
/// (own and combined size grow by its size) and every ancestor directory's
/// combined size grows by its size.  The ancestors are exactly the entries
/// whose path is a prefix directory of the file's path.
#[verifier::opaque]
pub open spec fn spec_record_file(t: Seq<DirectoryV>, f: FileV) -> Seq<DirectoryV> {
    Seq::new(
        t.len(),
        |k: int|
            {
                let d = t[k];
                if d.path == parent_of(f.path) {
                    DirectoryV {
                        own_size: (d.own_size + f.size) as u64,
                        combined_size: (d.combined_size + f.size) as u64,
                        files: d.files.push(f),
                        ..d
                    }
                } else if is_prefix_dir(d.path, f.path) {
                    DirectoryV { combined_size: (d.combined_size + f.size) as u64, ..d }
                } else {
                    d
                }
            },
    )
}

/// Recording a file, entry by entry: the parent takes the file and both
/// its sizes grow; every other ancestor's combined size grows; everything
/// else is untouched.  No entry, path or child link moves.
pub proof fn lemma_record_basic(t: Seq<DirectoryV>, f: FileV)
    ensures
        spec_record_file(t, f).len() == t.len(),
        forall|k: int|
            0 <= k < t.len() && (#[trigger] t[k]).path == parent_of(f.path)
                ==> spec_record_file(t, f)[k] == (DirectoryV {
                own_size: (t[k].own_size + f.size) as u64,
                combined_size: (t[k].combined_size + f.size) as u64,
                files: t[k].files.push(f),
                ..t[k]
            }),
        forall|k: int|
            0 <= k < t.len() && (#[trigger] t[k]).path != parent_of(f.path) && is_prefix_dir(
                t[k].path,
                f.path,
            ) ==> spec_record_file(t, f)[k] == (DirectoryV {
                combined_size: (t[k].combined_size + f.size) as u64,
                ..t[k]
            }),
        forall|k: int|
            0 <= k < t.len() && (#[trigger] t[k]).path != parent_of(f.path) && !is_prefix_dir(
                t[k].path,
                f.path,
            ) ==> spec_record_file(t, f)[k] == t[k],
        forall|k: int|
            0 <= k < t.len() ==> {
                let d2 = #[trigger] spec_record_file(t, f)[k];
                d2.path == t[k].path && d2.subdirectories == t[k].subdirectories
            },
        forall|q: Seq<char>|
            #[trigger] dir_index(spec_record_file(t, f), q) == dir_index(t, q),
{
    reveal(spec_record_file);
    let t2 = spec_record_file(t, f);
    assert forall|q: Seq<char>| #[trigger] dir_index(t2, q) == dir_index(t, q) by {
        lemma_dir_index_same_paths(t, t2, q);
    }
}

/// A listed child of any entry is itself a non-root entry, so its path
/// contains a slash and its parent is shorter than it.
proof fn lemma_child_has_slash(t: Seq<DirectoryV>, root: Seq<char>, k: int, i: int)
    requires
        tree_wf(t, root),
        0 <= k < t.len(),
        0 <= i < t[k].subdirectories.len(),
    ensures
        last_pos(t[k].subdirectories[i], '/') >= 0,
        parent_of(t[k].subdirectories[i]).len() < t[k].subdirectories[i].len(),
        is_prefix_dir(root, t[k].subdirectories[i]),
{
    let c = t[k].subdirectories[i];
    let mc = dir_index(t, c);
    assert(k < mc < t.len());
    lemma_dir_index(t, c);
    assert(t[mc].path == c);
    assert(is_prefix_dir(root, c));
    lemma_last_pos(c, '/');
    assert(c[root.len() as int] == '/');
    assert(last_pos(c, '/') >= 0);
    assert(parent_of(c).len() == last_pos(c, '/'));
}

/// Children not on the chain down to the recorded file keep their stored
/// combined size.
proof fn lemma_record_unchanged_children(t: Seq<DirectoryV>, root: Seq<char>, f: FileV, k: int)
    requires
        tree_wf(t, root),
        is_prefix_dir(root, f.path),
        has_dir(t, parent_of(f.path)),
        0 <= k < t.len(),
    ensures
        forall|i: int|
            0 <= i < t[k].subdirectories.len() && !is_prefix_dir(
                #[trigger] t[k].subdirectories[i],
                f.path,
            ) ==> combined_of(spec_record_file(t, f), t[k].subdirectories[i]) == combined_of(
                t,
                t[k].subdirectories[i],
            ),
{
    let n = t.len() as int;
    let p = f.path;
    let pa = parent_of(p);
    let t2 = spec_record_file(t, f);
    lemma_record_basic(t, f);
    lemma_parent(root, p);
    assert forall|i: int|
        0 <= i < t[k].subdirectories.len() && !is_prefix_dir(
            #[trigger] t[k].subdirectories[i],
            p,
        ) implies combined_of(t2, t[k].subdirectories[i]) == combined_of(
        t,
        t[k].subdirectories[i],
    ) by {
        let c = t[k].subdirectories[i];
        let m = dir_index(t, c);
        lemma_dir_index(t, c);
        assert(k < m < n);
        assert(t[m].path == c);
        assert(t[m].path != pa) by {
            if t[m].path == pa {
                assert(is_prefix_dir(c, p));
            }
        }
        assert(t2[m].combined_size == t[m].combined_size);
    }
}

/// No child of the recorded file's own parent directory lies on the chain.
proof fn lemma_record_sums_parent(t: Seq<DirectoryV>, root: Seq<char>, f: FileV, k: int)
    requires
        tree_wf(t, root),
        is_prefix_dir(root, f.path),
        has_dir(t, parent_of(f.path)),
        0 <= k < t.len(),
        t[k].path == parent_of(f.path),
    ensures
        sum_sub_combined(spec_record_file(t, f), t[k].subdirectories) == sum_sub_combined(
            t,
            t[k].subdirectories,
        ),
{
    let p = f.path;
    let pa = parent_of(p);
    let t2 = spec_record_file(t, f);
    let subs = t[k].subdirectories;
    lemma_record_unchanged_children(t, root, f, k);
    lemma_parent(root, p);
    lemma_last_pos(p, '/');
    assert forall|i: int| 0 <= i < subs.len() implies !is_prefix_dir(#[trigger] subs[i], p) by {
        let c = subs[i];
        assert(parent_of(c) == t[k].path);
        lemma_child_has_slash(t, root, k, i);
        if is_prefix_dir(c, p) {
            if c == pa {
                assert(parent_of(c).len() < c.len());
            } else {
                assert(c.len() <= last_pos(p, '/')) by {
                    assert(p[c.len() as int] == '/');
                }
                assert(c.len() != last_pos(p, '/')) by {
                    if c.len() == last_pos(p, '/') {
                        assert(c =~= pa) by {
                            assert(c == p.take(c.len() as int));
                            assert(pa == p.take(last_pos(p, '/')));
                        }
                    }
                }
                lemma_prefix_dir_parent(c, p);
                assert(is_prefix_dir(c, pa));
                assert(c.len() < pa.len());
                assert(parent_of(c).len() < c.len());
            }
            assert(false);
        }
    }
    lemma_sum_sub_stable(t2, t, subs);
}

/// Exactly one child of a proper ancestor lies on the chain down to the
/// recorded file, and its stored combined size grows by the file's size.
#[verifier::rlimit(100)]
#[verifier::spinoff_prover]
proof fn lemma_record_sums_ancestor(t: Seq<DirectoryV>, root: Seq<char>, f: FileV, k: int)
    requires
        tree_wf(t, root),
        is_prefix_dir(root, f.path),
        has_dir(t, parent_of(f.path)),
        sum_own(t) + f.size <= u64::MAX,
        forall|m: int| 0 <= m < t.len() ==> (#[trigger] t[m]).combined_size <= sum_own(t),
        0 <= k < t.len(),
        t[k].path != parent_of(f.path),
        is_prefix_dir(t[k].path, f.path),
    ensures
        sum_sub_combined(spec_record_file(t, f), t[k].subdirectories) == sum_sub_combined(
            t,
            t[k].subdirectories,
        ) + f.size,
{
    let n = t.len() as int;
    let p = f.path;
    let pa = parent_of(p);
    let t2 = spec_record_file(t, f);
    let subs = t[k].subdirectories;
    lemma_record_basic(t, f);
    lemma_record_unchanged_children(t, root, f, k);
    lemma_dir_index(t, pa);
    lemma_parent(root, p);
    lemma_last_pos(p, '/');
    let c0 = lemma_next_down(t[k].path, p);
    lemma_last_pos(c0, '/');
    assert(has_dir(t, c0)) by {
        if c0 == pa {
        } else {
            assert(c0.len() <= last_pos(p, '/')) by {
                assert(p[c0.len() as int] == '/');
            }
            assert(c0.len() != last_pos(p, '/')) by {
                if c0.len() == last_pos(p, '/') {
                    assert(c0 =~= pa) by {
                        assert(c0 == p.take(c0.len() as int));
                        assert(pa == p.take(last_pos(p, '/')));
                    }
                }
            }
            lemma_prefix_dir_parent(c0, p);
            assert(is_prefix_dir(c0, pa));
            assert(c0 != root) by {
                if c0 == root {
                    assert(parent_of(c0) == t[k].path);
                    assert(parent_of(c0).len() < c0.len());
                    if k >= 1 {
                        assert(is_prefix_dir(root, t[k].path));
                        assert(root.len() < t[k].path.len());
                    } else {
                        assert(t[k].path == root);
                    }
                }
            }
            assert(is_prefix_dir(root, c0)) by {
                assert(is_prefix_dir(root, p));
                if root.len() < c0.len() {
                    lemma_prefix_dir_nested(root, c0, p);
                } else if root.len() == c0.len() {
                    assert(c0 =~= root) by {
                        assert(c0 == p.take(c0.len() as int));
                        assert(root == p.take(root.len() as int));
                    }
                    assert(false);
                } else {
                    assert(parent_of(c0) == t[k].path);
                    assert(parent_of(c0).len() < c0.len());
                    if k >= 1 {
                        assert(is_prefix_dir(root, t[k].path));
                        assert(root.len() < t[k].path.len());
                    } else {
                        assert(t[k].path == root);
                    }
                    assert(false);
                }
            }
            lemma_ancestor_present(t, root, pa, c0);
        }
    }
    let m0 = dir_index(t, c0);
    lemma_dir_index(t, c0);
    assert(t[m0].path == c0);
    assert(m0 >= 1) by {
        if m0 == 0 {
            assert(t[0].path == root);
            assert(parent_of(c0) == t[k].path);
            assert(parent_of(c0).len() < c0.len());
            if k >= 1 {
                assert(is_prefix_dir(root, t[k].path));
            } else {
                assert(t[k].path == root);
                assert(root.len() < root.len());
            }
        }
    }
    assert(dir_index(t, parent_of(t[m0].path)) == k) by {
        lemma_dir_index_own(t, k);
    }
    assert(subs.contains(c0)) by {
        assert(t[dir_index(t, parent_of(t[m0].path))].subdirectories.contains(t[m0].path));
    }
    assert(combined_of(t2, c0) == combined_of(t, c0) + f.size) by {
        assert(t2[m0].combined_size == t[m0].combined_size + f.size) by {
            if t[m0].path == pa {
            } else {
                assert(is_prefix_dir(t[m0].path, p));
            }
        }
    }
    assert forall|i: int|
        0 <= i < subs.len() && subs[i] != c0 implies combined_of(t2, #[trigger] subs[i])
        == combined_of(t, subs[i]) by {
        let c = subs[i];
        if is_prefix_dir(c, p) {
            lemma_child_has_slash(t, root, k, i);
            assert(parent_of(c) == t[k].path);
            assert(parent_of(c0) == t[k].path);
            lemma_sibling_unique(p, c, c0);
            assert(false);
        }
    }
    lemma_sum_sub_one_change(t, t2, subs, c0, f.size as int);
}

/// An entry off the chain has no child on the chain: a child on the chain
/// would put the entry itself on it.
proof fn lemma_record_sums_other(t: Seq<DirectoryV>, root: Seq<char>, f: FileV, k: int)
    requires
        tree_wf(t, root),
        is_prefix_dir(root, f.path),
        has_dir(t, parent_of(f.path)),
        0 <= k < t.len(),
        t[k].path != parent_of(f.path),
        !is_prefix_dir(t[k].path, f.path),
    ensures
        sum_sub_combined(spec_record_file(t, f), t[k].subdirectories) == sum_sub_combined(
            t,
            t[k].subdirectories,
        ),
{
    let p = f.path;
    let t2 = spec_record_file(t, f);
    let subs = t[k].subdirectories;
    lemma_record_unchanged_children(t, root, f, k);
    assert forall|i: int| 0 <= i < subs.len() implies !is_prefix_dir(#[trigger] subs[i], p) by {
        let c = subs[i];
        if is_prefix_dir(c, p) {
            lemma_child_has_slash(t, root, k, i);
            lemma_parent_prefix_chain(c, p);
            assert(is_prefix_dir(parent_of(c), p));
            assert(parent_of(c) == t[k].path);
            assert(false);
        }
    }
    lemma_sum_sub_stable(t2, t, subs);
}

/// How the sum over one entry's child list moves when a file is recorded:
/// by the file's size when the entry is a proper ancestor of the file (one
/// child lies on the chain down to the file), not at all otherwise.
proof fn lemma_record_child_sums(t: Seq<DirectoryV>, root: Seq<char>, f: FileV, k: int)
    requires
        tree_wf(t, root),
        is_prefix_dir(root, f.path),
        has_dir(t, parent_of(f.path)),
        sum_own(t) + f.size <= u64::MAX,
        forall|m: int| 0 <= m < t.len() ==> (#[trigger] t[m]).combined_size <= sum_own(t),
        0 <= k < t.len(),
    ensures
        is_prefix_dir(t[k].path, f.path) && t[k].path != parent_of(f.path) ==> sum_sub_combined(
            spec_record_file(t, f),
            t[k].subdirectories,
        ) == sum_sub_combined(t, t[k].subdirectories) + f.size,
        !(is_prefix_dir(t[k].path, f.path) && t[k].path != parent_of(f.path)) ==> sum_sub_combined(
            spec_record_file(t, f),
            t[k].subdirectories,
        ) == sum_sub_combined(t, t[k].subdirectories),
{
    if t[k].path == parent_of(f.path) {
        lemma_record_sums_parent(t, root, f, k);
    } else if is_prefix_dir(t[k].path, f.path) {
        lemma_record_sums_ancestor(t, root, f, k);
    } else {
        lemma_record_sums_other(t, root, f, k);
    }
}

/// Recording a file whose parent directory is present preserves
/// well-formedness: the file's size rolls up through exactly one child of
/// every ancestor, so each rollup equation moves by the size on both sides.
#[verifier::rlimit(100)]
#[verifier::spinoff_prover]
pub proof fn lemma_record_file_wf(t: Seq<DirectoryV>, root: Seq<char>, f: FileV)
    requires
        tree_wf(t, root),
        is_prefix_dir(root, f.path),
        has_dir(t, parent_of(f.path)),
        sum_own(t) + f.size <= u64::MAX,
        forall|k: int| 0 <= k < t.len() ==> (#[trigger] t[k]).combined_size <= sum_own(t),
    ensures
        tree_wf(spec_record_file(t, f), root),
        spec_record_file(t, f).len() == t.len(),
        forall|k: int|
            0 <= k < t.len() ==> {
                let d2 = #[trigger] spec_record_file(t, f)[k];
                d2.path == t[k].path && d2.subdirectories == t[k].subdirectories
            },
        forall|k: int|
            0 <= k < t.len() && t[k].path != parent_of(f.path) ==> {
                let d2 = #[trigger] spec_record_file(t, f)[k];
                d2.files == t[k].files && d2.own_size == t[k].own_size
            },
        sum_own(spec_record_file(t, f)) == sum_own(t) + f.size,
        forall|k: int|
            0 <= k < t.len() ==> (#[trigger] spec_record_file(t, f)[k]).combined_size <= sum_own(t)
                + f.size,
        spec_record_file(t, f)[0].combined_size == t[0].combined_size + f.size,
{
    let n = t.len() as int;
    let p = f.path;
    let pa = parent_of(p);
    let t2 = spec_record_file(t, f);
    let pj = dir_index(t, pa);
    lemma_record_basic(t, f);
    lemma_dir_index(t, pa);
    lemma_parent(root, p);
    assert forall|k: int| 0 <= k < n implies (#[trigger] t[k]).own_size <= sum_own(t) by {
        crate::model::lemma_sum_own_each(t, k);
    }
    assert(is_prefix_dir(pa, p));
    // The rollup equations at each entry.
    assert forall|k: int| 0 <= k < n implies (#[trigger] t2[k]).combined_size == t2[k].own_size
        + sum_sub_combined(t2, t2[k].subdirectories) by {
        lemma_record_child_sums(t, root, f, k);
        if t[k].path == pa {
            assert(t2[k].combined_size == t[k].combined_size + f.size);
            assert(t2[k].own_size == t[k].own_size + f.size);
        } else if is_prefix_dir(t[k].path, p) {
            assert(t2[k].combined_size == t[k].combined_size + f.size);
            assert(t2[k].own_size == t[k].own_size);
        } else {
            assert(t2[k] == t[k]);
        }
    }
    // Own sizes: only the parent's moves, by the file's size.
    assert(t2[pj].own_size == t[pj].own_size + f.size);
    assert forall|k: int| 0 <= k < n && k != pj implies (#[trigger] t2[k]).own_size == (
    #[trigger] t[k]).own_size by {
        if t[k].path == pa {
            assert(t[pj].path == pa);
            assert(k == pj) by {
                lemma_dir_index_own(t, k);
            }
        }
    }
    crate::model::lemma_sum_own_same_except(t, t2, pj, f.size as int);
    // The per-file sums at the parent.
    crate::model::lemma_sum_sizes_push(t[pj].files, f);
    assert(tree_wf(t2, root)) by {
        assert forall|k: int| 1 <= k < n implies 0 <= dir_index(
            t2,
            parent_of((#[trigger] t2[k]).path),
        ) < k && t2[dir_index(t2, parent_of(t2[k].path))].subdirectories.contains(t2[k].path) by {
            assert(t2[k].path == t[k].path);
            assert(dir_index(t2, parent_of(t[k].path)) == dir_index(t, parent_of(t[k].path)));
        }
        assert forall|k: int, i: int|
            0 <= k < n && 0 <= i < t2[k].subdirectories.len() implies {
            let c = #[trigger] t2[k].subdirectories[i];
            &&& k < dir_index(t2, c) < t2.len()
            &&& parent_of(c) == t2[k].path
        } by {
            assert(t2[k].subdirectories[i] == t[k].subdirectories[i]);
        }
        assert forall|k: int| 0 <= k < n implies (#[trigger] t2[k]).own_size == sum_sizes(
            t2[k].files,
        ) by {
            if k == pj {
            } else if t[k].path == pa {
                lemma_dir_index_own(t, k);
            }
        }
        assert forall|k: int, m: int|
            0 <= k < n && 0 <= m < t2[k].files.len() implies parent_of(
            (#[trigger] t2[k].files[m]).path,
        ) == t2[k].path && is_prefix_dir(root, t2[k].files[m].path) by {
            if t[k].path == pa && m == t[k].files.len() {
                assert(t2[k].files[m] == f);
            } else if t[k].path == pa {
                assert(t2[k].files[m] == t[k].files[m]);
            } else {
                assert(t2[k].files == t[k].files);
            }
        }
    }
    assert(t2[0].combined_size == t[0].combined_size + f.size) by {
        if t[0].path == pa {
        } else {
            assert(is_prefix_dir(t[0].path, p));
        }
    }
}


/// Publication cadence: a partial snapshot is handed out after every this
/// many recorded entries.
pub const CADENCE: u64 = 2000;

/// The incremental state of one scan: the root path, the directory tree and
/// flat file list built so far, and the running total size.
pub struct ScanState {
    root: String,
    tree: Vec<Directory>,
    files: Vec<File>,
    total: u64,
}

/// The mathematical state of a scan.
#[verifier::ext_equal]
pub struct ScanV {
    pub root: Seq<char>,
    pub tree: Seq<DirectoryV>,
    pub files: Seq<FileV>,
    pub total: u64,
}

impl View for ScanState {
    type V = ScanV;

    closed spec fn view(&self) -> ScanV {
        ScanV {
            root: self.root@,
            tree: self.tree.deep_view(),
            files: self.files.deep_view(),
            total: self.total,
        }
    }
}

/// The standing invariant of a scan: the tree is well formed, the running
/// total equals both the total of the flat file list and the total own size
/// over the tree, the root entry's combined size has rolled all of it up,
/// no stored combined size exceeds the total, and every recorded file lies
/// under the root.
pub open spec fn scan_wf(s: ScanV) -> bool {
    &&& tree_wf(s.tree, s.root)
    &&& sum_own(s.tree) == s.total
    &&& sum_sizes(s.files) == s.total
    &&& s.tree[0].combined_size == s.total
    &&& forall|k: int| 0 <= k < s.tree.len() ==> (#[trigger] s.tree[k]).combined_size <= s.total
    &&& forall|m: int| 0 <= m < s.files.len() ==> is_prefix_dir(s.root, (#[trigger] s.files[m]).path)
}

/// The directories that ensuring `q` creates: every missing ancestor on the
/// way down from the root, then `q` itself.
pub open spec fn spec_ensure_dir(t: Seq<DirectoryV>, root: Seq<char>, q: Seq<char>) -> Seq<
    DirectoryV,
>
    decreases q.len(),
    when is_prefix_dir(root, q) || has_dir(t, q)
    via spec_ensure_dir_decreases
{
    if has_dir(t, q) {
        t
    } else {
        spec_create_dir(spec_ensure_dir(t, root, parent_of(q)), q)
    }
}

#[via_fn]
proof fn spec_ensure_dir_decreases(t: Seq<DirectoryV>, root: Seq<char>, q: Seq<char>) {
    if !has_dir(t, q) {
        lemma_parent(root, q);
    }
}

/// The published form of a scan state: the tree and file list seen so far,
/// with the total and the three rankings recomputed.
pub open spec fn snapshot_of(s: ScanV) -> SnapshotV {
    spec_recompute(
        SnapshotV {
            tree: s.tree,
            files: s.files,
            combined_size: s.total,
            files_by_size: Seq::empty(),
            dirs_by_size: Seq::empty(),
            types_by_size: Seq::empty(),
        },
    )
}

/// The tree-sum invariant and the recursive rollup invariant of a published
/// snapshot: the snapshot total equals the sum of the own sizes over all
/// tree entries, and each entry's combined size equals its own size plus
/// the combined sizes of its direct subdirectories.
pub proof fn lemma_snapshot_tree_invariants(s: SnapshotV, root: Seq<char>)
    requires
        tree_wf(s.tree, root),
        sum_own(s.tree) == sum_sizes(s.files),
        s.combined_size == sum_sizes(s.files),
    ensures
        s.combined_size == sum_own(s.tree),
        forall|k: int|
            0 <= k < s.tree.len() ==> (#[trigger] s.tree[k]).combined_size == s.tree[k].own_size
                + sum_sub_combined(s.tree, s.tree[k].subdirectories),
{
}

/// Published snapshots of one scan grow with the scan: recording one more
/// entry extends the published file list by exactly that entry, so every
/// later snapshot carries every file of every earlier one, in order.
pub proof fn lemma_snapshots_monotone(s1: ScanV, s2: ScanV, f: FileV)
    requires
        s2.files == s1.files.push(f),
    ensures
        snapshot_of(s2).files == snapshot_of(s1).files.push(f),
        snapshot_of(s1).files.len() < snapshot_of(s2).files.len(),
        forall|i: int|
            0 <= i < s1.files.len() ==> #[trigger] snapshot_of(s2).files[i] == snapshot_of(
                s1,
            ).files[i],
{
}

/// Index of the directory entry at path `p`, or `None` if there is none.
pub(crate) fn find_dir(tree: &Vec<Directory>, p: &String) -> (r: Option<usize>)
    ensures
        match r {
            Some(i) => dir_index(tree.deep_view(), p@) == i,
            None => dir_index(tree.deep_view(), p@) == -1,
        },
{
    let ghost tv = tree.deep_view();
    let mut i: usize = 0;
    while i < tree.len()
        invariant
            i <= tv.len(),
            tv == tree.deep_view(),
            forall|m: int| 0 <= m < i ==> (#[trigger] tv[m]).path != p@,
        decreases tv.len() - i,
    {
        if tree[i].path == *p {
            proof {
                assert(tv[i as int] == tree@[i as int]@);
                lemma_dir_index(tv, p@);
                if dir_index(tv, p@) < i {
                    assert(tv[dir_index(tv, p@)].path == p@);
                    assert(false);
                }
                if dir_index(tv, p@) > i {
                    assert(tv[i as int].path != p@);
                    assert(false);
                }
            }
            return Some(i);
        }
        proof {
            assert(tv[i as int] == tree@[i as int]@);
        }
        i = i + 1;
    }
    proof {
        lemma_dir_index(tv, p@);
        if dir_index(tv, p@) >= 0 {
            assert(tv[dir_index(tv, p@)].path == p@);
            assert(false);
        }
    }
    None
}

impl ScanState {
    /// A fresh scan of the subtree at `root`: one tree entry for the root
    /// itself, no files, total zero.
    pub fn new(root: String) -> (s: ScanState)
        ensures
            s@.root == root@,
            s@.tree == seq![new_dir(root@)],
            s@.files == Seq::<FileV>::empty(),
            s@.total == 0,
            scan_wf(s@),
    {
        let rc = root.clone();
        let mut tree: Vec<Directory> = Vec::new();
        tree.push(
            Directory {
                path: rc,
                own_size: 0,
                combined_size: 0,
                files: Vec::new(),
                subdirectories: Vec::new(),
            },
        );
        let s = ScanState { root, tree, files: Vec::new(), total: 0 };
        proof {
            assert(s@.tree.len() == 1);
            assert(s@.tree[0] =~= new_dir(root@));
            assert(s@.tree =~= seq![new_dir(root@)]);
            assert(s@.files =~= Seq::<FileV>::empty());
            assert(sum_sizes(Seq::<FileV>::empty()) == 0);
            assert(sum_own(seq![new_dir(root@)]) == 0) by {
                assert(seq![new_dir(root@)].drop_last() =~= Seq::<DirectoryV>::empty());
                assert(sum_own(Seq::<DirectoryV>::empty()) == 0);
            }
            assert(sum_sub_combined(s@.tree, Seq::<Seq<char>>::empty()) == 0);
            assert(tree_wf(s@.tree, root@));
            assert(scan_wf(s@));
        }
        s
    }

    /// How many entries the scan has recorded.
    pub fn entry_count(&self) -> (n: usize)
        ensures
            n == self@.files.len(),
    {
        self.files.len()
    }

    /// The running total size of everything recorded so far.
    pub fn total_bytes(&self) -> (t: u64)
        ensures
            t == self@.total,
    {
        self.total
    }

    /// The root path the scan was started on.
    pub fn root_path(&self) -> (r: &String)
        ensures
            r@ == self@.root,
    {
        &self.root
    }

    /// Create the missing directory `q`, whose parent is already present,
    /// and register it as a child of that parent.
    fn create_child_dir(&mut self, q: &String)
        requires
            scan_wf(old(self)@),
            is_prefix_dir(old(self)@.root, q@),
            has_dir(old(self)@.tree, parent_of(q@)),
            !has_dir(old(self)@.tree, q@),
        ensures
            final(self)@.root == old(self)@.root,
            final(self)@.files == old(self)@.files,
            final(self)@.total == old(self)@.total,
            final(self)@.tree == spec_create_dir(old(self)@.tree, q@),
            scan_wf(final(self)@),
    {
        let ghost t = old(self)@.tree;
        proof {
            lemma_parent(old(self)@.root, q@);
            lemma_dir_index(t, parent_of(q@));
        }
        let parent = parent_dir(q);
        let pj = match find_dir(&self.tree, &parent) {
            Some(i) => i,
            None => {
                proof {
                    assert(false);
                }
                0
            },
        };
        let ghost pre = self.tree@;
        let mut pd = self.tree.remove(pj);
        let ghost pdsubs = pd.subdirectories@;
        let qc = q.clone();
        let ghost qcs = qc;
        pd.subdirectories.push(qc);
        proof {
            crate::model::lemma_vec_deep_view(&pd.subdirectories);
            crate::model::lemma_deep_view_push(pdsubs, pd.subdirectories@, qcs);
        }
        self.tree.insert(pj, pd);
        self.tree.push(
            Directory {
                path: q.clone(),
                own_size: 0,
                combined_size: 0,
                files: Vec::new(),
                subdirectories: Vec::new(),
            },
        );
        proof {
            lemma_create_basic(t, q@);
            let pjs = dir_index(t, parent_of(q@));
            assert(pjs == pj);
            assert(self@.tree =~= spec_create_dir(t, q@)) by {
                assert forall|m: int| 0 <= m < self@.tree.len() implies self@.tree[m]
                    == spec_create_dir(t, q@)[m] by {
                    assert(self@.tree[m] == self.tree@[m]@);
                    if m < pj {
                        assert(self.tree@[m] == pre[m]);
                        assert(pre[m]@ == t[m]);
                    } else if m == pj {
                        assert(self.tree@[m] == pre.remove(pj as int).insert(pj as int, pd)[m]);
                    } else if m < t.len() {
                        assert(self.tree@[m] == pre.remove(pj as int).insert(pj as int, pd)[m]);
                        assert(pre.remove(pj as int)[m - 1] == pre[m]);
                        assert(pre[m]@ == t[m]);
                    } else {
                        assert(self@.tree[m] == new_dir(q@));
                    }
                }
            }
            lemma_create_dir_wf(t, old(self)@.root, q@);
            assert(scan_wf(self@)) by {
                assert(self@.tree[0].combined_size == t[0].combined_size);
                assert forall|k: int| 0 <= k < self@.tree.len() implies (
                #[trigger] self@.tree[k]).combined_size <= self@.total by {
                    if k < t.len() {
                        assert(self@.tree[k].combined_size == t[k].combined_size);
                    } else {
                        assert(self@.tree[k] == new_dir(q@));
                    }
                }
            }
        }
    }

    /// Ensure the directory `q` (the root itself, or any path under it) is
    /// present, creating it and every missing ancestor on the way.
    fn ensure_dir(&mut self, q: &String)
        requires
            scan_wf(old(self)@),
            q@ == old(self)@.root || is_prefix_dir(old(self)@.root, q@),
        ensures
            final(self)@.root == old(self)@.root,
            final(self)@.files == old(self)@.files,
            final(self)@.total == old(self)@.total,
            final(self)@.tree == spec_ensure_dir(old(self)@.tree, old(self)@.root, q@),
            has_dir(final(self)@.tree, q@),
            forall|p: Seq<char>|
                #[trigger] has_dir(final(self)@.tree, p) ==> has_dir(old(self)@.tree, p) || p == q@
                    || is_prefix_dir(p, q@),
            scan_wf(final(self)@),
        decreases q@.len(),
    {
        let ghost t = old(self)@.tree;
        let ghost root = old(self)@.root;
        match find_dir(&self.tree, q) {
            Some(_) => {
                proof {
                    assert(has_dir(t, q@));
                    assert(spec_ensure_dir(t, root, q@) == t);
                }
            },
            None => {
                proof {
                    assert(!has_dir(t, q@));
                    assert(q@ != root) by {
                        if q@ == root {
                            lemma_dir_index_own(t, 0);
                        }
                    }
                    lemma_parent(root, q@);
                }
                let parent = parent_dir(q);
                self.ensure_dir(&parent);
                proof {
                    assert(!has_dir(self@.tree, q@)) by {
                        if has_dir(self@.tree, q@) {
                            assert(has_dir(t, q@) || q@ == parent@ || is_prefix_dir(q@, parent@));
                            assert(parent@.len() < q@.len());
                        }
                    }
                }
                self.create_child_dir(q);
                proof {
                    lemma_create_basic(spec_ensure_dir(t, root, parent@), q@);
                    assert(self@.tree == spec_ensure_dir(t, root, q@));
                    assert(has_dir(self@.tree, q@)) by {
                        lemma_dir_index(spec_ensure_dir(t, root, parent@), q@);
                    }
                    assert forall|p: Seq<char>| #[trigger] has_dir(self@.tree, p) implies has_dir(
                        t,
                        p,
                    ) || p == q@ || is_prefix_dir(p, q@) by {
                        let t1 = spec_ensure_dir(t, root, parent@);
                        lemma_dir_index(t1, p);
                        if p != q@ {
                            if dir_index(t1, p) == -1 {
                                assert(!has_dir(self@.tree, p));
                            } else {
                                assert(has_dir(t1, p));
                                assert(has_dir(t, p) || p == parent@ || is_prefix_dir(p, parent@));
                                if p == parent@ {
                                    assert(is_prefix_dir(p, q@));
                                } else if is_prefix_dir(p, parent@) {
                                    crate::paths::lemma_prefix_dir_trans(p, parent@, q@);
                                }
                            }
                        }
                    }
                }
            },
        }
    }
}


impl ScanState {
    /// Record one enumerated file whose parent directory is already
    /// present: the file joins its parent, its size rolls up the ancestor
    /// chain, and it is appended to the flat file list.
    #[verifier::rlimit(100)]
    #[verifier::spinoff_prover]
    fn record_entry(&mut self, path: String, size: u64, modified: Option<u64>)
        requires
            scan_wf(old(self)@),
            is_prefix_dir(old(self)@.root, path@),
            has_dir(old(self)@.tree, parent_of(path@)),
            old(self)@.total + size <= u64::MAX,
        ensures
            final(self)@.root == old(self)@.root,
            final(self)@.tree == spec_record_file(
                old(self)@.tree,
                FileV { path: path@, size, modified },
            ),
            final(self)@.files == old(self)@.files.push(FileV { path: path@, size, modified }),
            final(self)@.total == old(self)@.total + size,
            scan_wf(final(self)@),
    {
        let ghost t = old(self)@.tree;
        let ghost root = old(self)@.root;
        let ghost fv = FileV { path: path@, size, modified };
        proof {
            lemma_parent(root, path@);
            lemma_record_basic(t, fv);
            lemma_record_file_wf(t, root, fv);
        }
        let parent = parent_dir(&path);
        let mut k: usize = 0;
        while k < self.tree.len()
            invariant
                scan_wf(old(self)@),
                old(self)@.total + size <= u64::MAX,
                t == old(self)@.tree,
                root == old(self)@.root,
                fv == (FileV { path: path@, size, modified }),
                is_prefix_dir(root, path@),
                has_dir(t, parent_of(path@)),
                parent@ == parent_of(fv.path),
                self@.root == root,
                self@.files == old(self)@.files,
                self@.total == old(self)@.total,
                self.tree@.len() == t.len(),
                k <= t.len(),
                forall|m: int| 0 <= m < k ==> self@.tree[m] == spec_record_file(t, fv)[m],
                forall|m: int| k <= m < t.len() ==> self@.tree[m] == t[m],
            decreases t.len() - k,
        {
            proof {
                lemma_record_basic(t, fv);
                assert(self@.tree[k as int] == t[k as int]);
                assert(self.tree@[k as int]@ == t[k as int]);
                crate::model::lemma_sum_own_each(t, k as int);
            }
            let is_parent = self.tree[k].path == parent;
            if is_parent {
                let ghost pre = self.tree@;
                let mut d = self.tree.remove(k);
                proof {
                    assert(d@ == t[k as int]);
                }
                d.own_size = d.own_size + size;
                d.combined_size = d.combined_size + size;
                let ghost dfiles = d.files@;
                let fdup = File { path: path.clone(), size, modified };
                let ghost fdups = fdup;
                d.files.push(fdup);
                proof {
                    crate::model::lemma_vec_deep_view(&d.files);
                    crate::model::lemma_deep_view_push(dfiles, d.files@, fdups);
                    assert(d@ =~= spec_record_file(t, fv)[k as int]) by {
                        assert(fdups@ == fv);
                        assert(d.files.deep_view() == t[k as int].files.push(fv));
                    }
                }
                self.tree.insert(k, d);
                proof {
                    assert forall|m: int| 0 <= m < k + 1 implies self@.tree[m] == spec_record_file(
                        t,
                        fv,
                    )[m] by {
                        assert(self@.tree[m] == self.tree@[m]@);
                        if m < k {
                            assert(self.tree@[m] == pre.remove(k as int).insert(k as int, d)[m]);
                            assert(self.tree@[m] == pre[m]);
                        } else {
                            assert(self.tree@[m] == d);
                        }
                    }
                    assert forall|m: int| k + 1 <= m < t.len() implies self@.tree[m] == t[m] by {
                        assert(self.tree@[m] == pre.remove(k as int).insert(k as int, d)[m]);
                        assert(pre.remove(k as int)[m - 1] == pre[m]);
                        assert(self@.tree[m] == pre[m]@);
                    }
                }
            } else {
                let is_anc = check_prefix_dir(&self.tree[k].path, &path);
                if is_anc {
                    let ghost pre = self.tree@;
                    let mut d = self.tree.remove(k);
                    proof {
                        assert(d@ == t[k as int]);
                    }
                    d.combined_size = d.combined_size + size;
                    proof {
                        assert(d@ =~= spec_record_file(t, fv)[k as int]) by {
                            assert(t[k as int].path != parent_of(fv.path));
                            assert(is_prefix_dir(t[k as int].path, fv.path));
                        }
                    }
                    self.tree.insert(k, d);
                    proof {
                        assert forall|m: int|
                            0 <= m < k + 1 implies self@.tree[m] == spec_record_file(t, fv)[m] by {
                            assert(self@.tree[m] == self.tree@[m]@);
                            if m < k {
                                assert(self.tree@[m] == pre.remove(k as int).insert(
                                    k as int,
                                    d,
                                )[m]);
                                assert(self.tree@[m] == pre[m]);
                            } else {
                                assert(self.tree@[m] == d);
                            }
                        }
                        assert forall|m: int| k + 1 <= m < t.len() implies self@.tree[m] == t[m] by {
                            assert(self.tree@[m] == pre.remove(k as int).insert(k as int, d)[m]);
                            assert(pre.remove(k as int)[m - 1] == pre[m]);
                            assert(self@.tree[m] == pre[m]@);
                        }
                    }
                } else {
                    proof {
                        assert(self@.tree[k as int] == spec_record_file(t, fv)[k as int]) by {
                            assert(t[k as int].path != parent_of(fv.path));
                            assert(!is_prefix_dir(t[k as int].path, fv.path));
                        }
                    }
                }
            }
            k = k + 1;
        }
        proof {
            assert(self@.tree =~= spec_record_file(t, fv));
        }
        let ghost prefiles = self.files@;
        let f = File { path, size, modified };
        let ghost fs = f;
        self.files.push(f);
        self.total = self.total + size;
        proof {
            crate::model::lemma_vec_deep_view(&self.files);
            crate::model::lemma_deep_view_push(prefiles, self.files@, fs);
            assert(self@.files =~= old(self)@.files.push(fv));
            crate::model::lemma_sum_sizes_push(old(self)@.files, fv);
            assert(scan_wf(self@)) by {
                assert(tree_wf(self@.tree, root));
                assert(sum_own(self@.tree) == old(self)@.total + size);
                assert(self@.tree[0].combined_size == old(self)@.tree[0].combined_size + size);
                assert forall|m: int| 0 <= m < self@.files.len() implies is_prefix_dir(
                    root,
                    (#[trigger] self@.files[m]).path,
                ) by {
                    if m < old(self)@.files.len() {
                        assert(self@.files[m] == old(self)@.files[m]);
                    } else {
                        assert(self@.files[m] == fv);
                    }
                }
            }
        }
    }

    /// A fully recomputed snapshot of everything recorded so far.
    pub fn build_snapshot(&self) -> (r: AggregateSnapshot)
        requires
            scan_wf(self@),
        ensures
            r@ == snapshot_of(self@),
            r@.tree == self@.tree,
            r@.files == self@.files,
            r@.combined_size == self@.total,
            tree_wf(r@.tree, self@.root),
            sum_own(r@.tree) == sum_sizes(r@.files),
            derived_consistent(r@),
    {
        let mut snap = AggregateSnapshot {
            tree: crate::model::duplicate_dirs(&self.tree),
            files: crate::model::duplicate_files(&self.files),
            combined_size: self.total,
            files_by_size: Vec::new(),
            dirs_by_size: Vec::new(),
            types_by_size: Vec::new(),
        };
        proof {
            assert(sum_sizes(snap@.files) <= u64::MAX);
        }
        let ghost inner = snap@;
        snap.recompute();
        proof {
            let base = SnapshotV {
                tree: self@.tree,
                files: self@.files,
                combined_size: self@.total,
                files_by_size: Seq::empty(),
                dirs_by_size: Seq::empty(),
                types_by_size: Seq::empty(),
            };
            assert(spec_recompute(inner) =~= spec_recompute(base));
            assert(snap@ == snapshot_of(self@));
            crate::snapshot::lemma_recompute_idempotent(base);
            assert(derived_consistent(snap@)) by {
                assert(spec_recompute(snap@) =~= snap@);
            }
        }
        snap
    }

    /// Record one enumerated `(path, size, modified)` entry, creating any
    /// missing ancestor directories first.  Hands out a fully recomputed
    /// snapshot exactly when the number of recorded entries has reached a
    /// multiple of the publication cadence.
    pub fn add_entry(&mut self, path: String, size: u64, modified: Option<u64>) -> (r: Option<
        AggregateSnapshot,
    >)
        requires
            scan_wf(old(self)@),
            is_prefix_dir(old(self)@.root, path@),
            old(self)@.total + size <= u64::MAX,
        ensures
            final(self)@.root == old(self)@.root,
            scan_wf(final(self)@),
            final(self)@.files == old(self)@.files.push(FileV { path: path@, size, modified }),
            final(self)@.total == old(self)@.total + size,
            final(self)@.tree == spec_record_file(
                spec_ensure_dir(old(self)@.tree, old(self)@.root, parent_of(path@)),
                FileV { path: path@, size, modified },
            ),
            match r {
                Some(snap) => (final(self)@.files.len() as int) % (CADENCE as int) == 0 && snap@
                    == snapshot_of(final(self)@),
                None => (final(self)@.files.len() as int) % (CADENCE as int) != 0,
            },
    {
        proof {
            lemma_parent(old(self)@.root, path@);
        }
        let parent = parent_dir(&path);
        self.ensure_dir(&parent);
        self.record_entry(path, size, modified);
        let n = self.files.len();
        if (n as u64) % CADENCE == 0 {
            Some(self.build_snapshot())
        } else {
            None
        }
    }

    /// The final, fully aggregated snapshot of the whole scan.
    pub fn finish(self) -> (r: AggregateSnapshot)
        requires
            scan_wf(self@),
        ensures
            r@ == snapshot_of(self@),
            r@.tree == self@.tree,
            r@.files == self@.files,
            r@.combined_size == self@.total,
            tree_wf(r@.tree, self@.root),
            sum_own(r@.tree) == sum_sizes(r@.files),
            derived_consistent(r@),
    {
        self.build_snapshot()
    }
}

} // verus!
