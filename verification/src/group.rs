//! Grouping files by extension for the `types_by_size` ranking.
//!
//! Files are folded left to right into a list of extension groups: the first
//! file of a new extension appends a group, later files of the same extension
//! are appended to their group and added to its total.  Group order is
//! first-occurrence order, which the stable ranking sort then refines.

use vstd::prelude::*;
use crate::model::File;
use crate::model::FileType;
use crate::model::FileTypeV;
use crate::model::FileV;
use crate::model::lemma_deep_view_push;
use crate::model::lemma_vec_deep_view;
use crate::model::lemma_sum_sizes_push;
use crate::model::lemma_sum_sizes_take_le;
use crate::model::lemma_sum_sizes_take_step;
use crate::model::sum_sizes;
use crate::paths::ext_of;
use crate::paths::extension_of;

verus! {

/// Index of the group with extension `e`, or `-1` if there is none.
pub open spec fn ext_index(gs: Seq<FileTypeV>, e: Seq<char>) -> int
    decreases gs.len(),
{
    if gs.len() == 0 {
        -1
    } else if gs[0].ext == e {
        0
    } else if ext_index(gs.drop_first(), e) == -1 {
        -1
    } else {
        1 + ext_index(gs.drop_first(), e)
    }
}

/// One file folded into the group list.
pub open spec fn add_to_groups(gs: Seq<FileTypeV>, f: FileV) -> Seq<FileTypeV> {
    let e = ext_of(f.path);
    let i = ext_index(gs, e);
    if i == -1 {
        gs.push(FileTypeV { ext: e, size: f.size, files: seq![f] })
    } else {
        gs.update(
            i,
            FileTypeV {
                ext: e,
                size: (gs[i].size + f.size) as u64,
                files: gs[i].files.push(f),
            },
        )
    }
}

/// The extension groups of a file list, in first-occurrence order.
pub open spec fn groups_of(fs: Seq<FileV>) -> Seq<FileTypeV>
    decreases fs.len(),
{
    if fs.len() == 0 {
        Seq::empty()
    } else {
        add_to_groups(groups_of(fs.drop_last()), fs.last())
    }
}

/// Total of the group sizes.
pub open spec fn sum_group_sizes(gs: Seq<FileTypeV>) -> int
    decreases gs.len(),
{
    if gs.len() == 0 {
        0
    } else {
        sum_group_sizes(gs.drop_last()) + gs.last().size
    }
}

pub proof fn lemma_ext_index(gs: Seq<FileTypeV>, e: Seq<char>)
    ensures
        -1 <= ext_index(gs, e) < gs.len(),
        ext_index(gs, e) >= 0 ==> gs[ext_index(gs, e)].ext == e,
        forall|m: int| 0 <= m < ext_index(gs, e) ==> gs[m].ext != e,
        ext_index(gs, e) == -1 ==> forall|m: int| 0 <= m < gs.len() ==> gs[m].ext != e,
    decreases gs.len(),
{
    if gs.len() == 0 {
    } else if gs[0].ext == e {
    } else {
        lemma_ext_index(gs.drop_first(), e);
        let p = ext_index(gs.drop_first(), e);
        if p == -1 {
            assert forall|m: int| 0 <= m < gs.len() implies gs[m].ext != e by {
                if m > 0 {
                    assert(gs.drop_first()[m - 1].ext != e);
                }
            }
        } else {
            assert forall|m: int| 0 <= m < 1 + p implies gs[m].ext != e by {
                if m > 0 {
                    assert(gs.drop_first()[m - 1].ext != e);
                }
            }
            assert(gs[1 + p] == gs.drop_first()[p]);
        }
    }
}

proof fn lemma_sum_group_sizes_push(gs: Seq<FileTypeV>, g: FileTypeV)
    ensures
        sum_group_sizes(gs.push(g)) == sum_group_sizes(gs) + g.size,
{
    assert(gs.push(g).drop_last() =~= gs);
}

proof fn lemma_sum_group_sizes_update(gs: Seq<FileTypeV>, i: int, g: FileTypeV)
    requires
        0 <= i < gs.len(),
    ensures
        sum_group_sizes(gs.update(i, g)) == sum_group_sizes(gs) - gs[i].size + g.size,
    decreases gs.len(),
{
    let u = gs.update(i, g);
    if i == gs.len() - 1 {
        assert(u.drop_last() =~= gs.drop_last());
        assert(u.last() == g);
    } else {
        assert(u.drop_last() =~= gs.drop_last().update(i, g));
        assert(u.last() == gs.last());
        lemma_sum_group_sizes_update(gs.drop_last(), i, g);
    }
}

proof fn lemma_sum_group_sizes_nonneg(gs: Seq<FileTypeV>)
    ensures
        0 <= sum_group_sizes(gs),
    decreases gs.len(),
{
    if gs.len() > 0 {
        lemma_sum_group_sizes_nonneg(gs.drop_last());
    }
}

/// Every single group's size is at most the total over all groups.
proof fn lemma_group_size_le_sum(gs: Seq<FileTypeV>, i: int)
    requires
        0 <= i < gs.len(),
    ensures
        gs[i].size <= sum_group_sizes(gs),
    decreases gs.len(),
{
    lemma_sum_group_sizes_nonneg(gs.drop_last());
    if i == gs.len() - 1 {
    } else {
        lemma_group_size_le_sum(gs.drop_last(), i);
        assert(gs.drop_last()[i] == gs[i]);
    }
}

/// What grouping guarantees: each group's size is the total size of its
/// files, each held file matches its group's extension, extensions are
/// pairwise distinct, and the group totals add up to the input total.
pub proof fn lemma_groups_invariants(fs: Seq<FileV>)
    requires
        sum_sizes(fs) <= u64::MAX,
    ensures
        sum_group_sizes(groups_of(fs)) == sum_sizes(fs),
        forall|j: int|
            0 <= j < groups_of(fs).len() ==> (#[trigger] groups_of(fs)[j]).size == sum_sizes(
                groups_of(fs)[j].files,
            ),
        forall|j: int, m: int|
            0 <= j < groups_of(fs).len() && 0 <= m < groups_of(fs)[j].files.len() ==> ext_of(
                #[trigger] groups_of(fs)[j].files[m].path,
            ) == groups_of(fs)[j].ext,
        forall|j1: int, j2: int|
            0 <= j1 < j2 < groups_of(fs).len() ==> (#[trigger] groups_of(fs)[j1]).ext != (
            #[trigger] groups_of(fs)[j2]).ext,
    decreases fs.len(),
{
    if fs.len() == 0 {
    } else {
        let pre = fs.drop_last();
        let f = fs.last();
        let gs = groups_of(pre);
        let e = ext_of(f.path);
        assert(sum_sizes(pre) <= sum_sizes(fs)) by {
            assert(fs.take(fs.len() - 1) =~= pre);
            lemma_sum_sizes_take_le(fs, fs.len() - 1);
        }
        lemma_groups_invariants(pre);
        lemma_ext_index(gs, e);
        let i = ext_index(gs, e);
        if i == -1 {
            let g = FileTypeV { ext: e, size: f.size, files: seq![f] };
            lemma_sum_group_sizes_push(gs, g);
            assert(sum_sizes(seq![f]) == f.size) by {
                assert(seq![f].drop_last() =~= Seq::<FileV>::empty());
                assert(sum_sizes(Seq::<FileV>::empty()) == 0);
            }
            assert forall|j: int, m: int|
                0 <= j < groups_of(fs).len() && 0 <= m < groups_of(fs)[j].files.len() implies ext_of(
                #[trigger] groups_of(fs)[j].files[m].path,
            ) == groups_of(fs)[j].ext by {
                if j < gs.len() {
                    assert(groups_of(fs)[j] == gs[j]);
                } else {
                    assert(groups_of(fs)[j] == g);
                    assert(g.files[m] == f);
                }
            }
        } else {
            lemma_group_size_le_sum(gs, i);
            lemma_sum_group_sizes_nonneg(gs);
            assert(gs[i].size + f.size <= sum_sizes(fs));
            let g = FileTypeV {
                ext: e,
                size: (gs[i].size + f.size) as u64,
                files: gs[i].files.push(f),
            };
            lemma_sum_group_sizes_update(gs, i, g);
            lemma_sum_sizes_push(gs[i].files, f);
            assert forall|j: int, m: int|
                0 <= j < groups_of(fs).len() && 0 <= m < groups_of(fs)[j].files.len() implies ext_of(
                #[trigger] groups_of(fs)[j].files[m].path,
            ) == groups_of(fs)[j].ext by {
                if j != i {
                    assert(groups_of(fs)[j] == gs[j]);
                } else {
                    assert(groups_of(fs)[j] == g);
                    if m < gs[i].files.len() {
                        assert(g.files[m] == gs[i].files[m]);
                        assert(ext_of(gs[i].files[m].path) == gs[i].ext);
                    } else {
                        assert(g.files[m] == f);
                    }
                }
            }
            assert forall|j1: int, j2: int|
                0 <= j1 < j2 < groups_of(fs).len() implies (#[trigger] groups_of(fs)[j1]).ext != (
            #[trigger] groups_of(fs)[j2]).ext by {
                assert(groups_of(fs)[j1].ext == gs[j1].ext);
                assert(groups_of(fs)[j2].ext == gs[j2].ext);
            }
        }
    }
}

/// The extension groups of a file list, in first-occurrence order.
pub fn build_groups(files: &Vec<File>) -> (r: Vec<FileType>)
    requires
        sum_sizes(files.deep_view()) <= u64::MAX,
    ensures
        r.deep_view() == groups_of(files.deep_view()),
{
    let ghost dv = files.deep_view();
    let mut r: Vec<FileType> = Vec::new();
    assert(r.deep_view() =~= groups_of(dv.take(0)));
    let mut i: usize = 0;
    while i < files.len()
        invariant
            i <= dv.len(),
            dv == files.deep_view(),
            sum_sizes(dv) <= u64::MAX,
            r.deep_view() == groups_of(dv.take(i as int)),
        decreases dv.len() - i,
    {
        let ghost gs = r.deep_view();
        let f = files[i].duplicate();
        proof {
            assert(f@ == dv[i as int]);
        }
        let e = extension_of(&f.path);
        let mut gi: usize = 0;
        let mut found = false;
        while gi < r.len() && !found
            invariant
                gi <= r@.len(),
                gs == r.deep_view(),
                found ==> gi < r@.len() && gs[gi as int].ext == e@,
                forall|m: int| 0 <= m < gi ==> (#[trigger] gs[m]).ext != e@,
            decreases r@.len() - gi + (if found { 0int } else { 1int }),
        {
            if r[gi].ext == e {
                found = true;
            } else {
                proof {
                    assert(gs[gi as int] == r@[gi as int]@);
                }
                gi = gi + 1;
            }
        }
        proof {
            lemma_ext_index(gs, e@);
            if found {
                assert(gs[gi as int] == r@[gi as int]@);
                if ext_index(gs, e@) < gi {
                    assert(gs[ext_index(gs, e@)].ext == e@);
                    assert(false);
                }
                if ext_index(gs, e@) > gi {
                    assert(gs[gi as int].ext != e@);
                    assert(false);
                }
                assert(ext_index(gs, e@) == gi);
            } else {
                if ext_index(gs, e@) >= 0 {
                    assert(gs[ext_index(gs, e@)].ext == e@);
                    assert(false);
                }
                assert(ext_index(gs, e@) == -1);
            }
            assert(ext_of(dv[i as int].path) == e@);
            assert(dv.take(i + 1 as int).drop_last() =~= dv.take(i as int));
            assert(dv.take(i + 1 as int).last() == dv[i as int]);
            lemma_sum_sizes_take_step(dv, i as int);
            lemma_sum_sizes_take_le(dv, i + 1 as int);
            lemma_groups_invariants(dv.take(i as int));
        }
        if found {
            let ghost pre = r@;
            let mut g = r.remove(gi);
            proof {
                assert(g@ == gs[gi as int]);
                lemma_group_size_le_sum(gs, gi as int);
                assert(g.size + f.size <= u64::MAX);
            }
            g.size = g.size + f.size;
            let ghost gfiles = g.files@;
            g.files.push(f);
            proof {
                lemma_vec_deep_view(&g.files);
                lemma_deep_view_push(gfiles, g.files@, f);
                assert(g@ =~= add_to_groups(gs, dv[i as int])[gi as int]) by {
                    assert(g.files.deep_view() == gs[gi as int].files.push(dv[i as int]));
                }
            }
            r.insert(gi, g);
            proof {
                assert(r.deep_view() =~= add_to_groups(gs, dv[i as int])) by {
                    assert forall|m: int| 0 <= m < r@.len() implies r.deep_view()[m]
                        == add_to_groups(gs, dv[i as int])[m] by {
                        assert(r.deep_view()[m] == r@[m]@);
                        if m < gi {
                            assert(r@[m] == pre.remove(gi as int).insert(gi as int, g)[m]);
                            assert(r@[m] == pre[m]);
                        } else if m == gi {
                            assert(r@[m] == g);
                        } else {
                            assert(r@[m] == pre.remove(gi as int).insert(gi as int, g)[m]);
                            assert(pre.remove(gi as int)[m - 1] == pre[m]);
                            assert(r@[m] == pre[m]);
                        }
                    }
                }
                assert(r.deep_view() == groups_of(dv.take(i + 1 as int)));
            }
        } else {
            let ghost pre = r@;
            let mut nf: Vec<File> = Vec::new();
            let fsize = f.size;
            nf.push(f);
            proof {
                assert(nf.deep_view() =~= seq![dv[i as int]]);
            }
            let g = FileType { ext: e, size: fsize, files: nf };
            r.push(g);
            proof {
                lemma_vec_deep_view(&r);
                lemma_deep_view_push(pre, r@, g);
                assert(r.deep_view() =~= add_to_groups(gs, dv[i as int])) by {
                    assert(g@ =~= FileTypeV {
                        ext: e@,
                        size: dv[i as int].size,
                        files: seq![dv[i as int]],
                    });
                }
                assert(r.deep_view() == groups_of(dv.take(i + 1 as int)));
            }
        }
        i = i + 1;
    }
    proof {
        assert(dv.take(dv.len() as int) =~= dv);
    }
    r
}

} // verus!
