//! Snapshot recomputation, its well-formedness, and the deletion
//! synchronizer.
//!
//! The derived rankings and the total are pure functions of `tree` and
//! `files` (`spec_recompute`); they are only ever rebuilt, never edited.
//! `tree_wf` states the shape of a well-formed directory tree: a rooted
//! arena of uniquely named directories whose parent and child links agree
//! and whose stored sizes satisfy the rollup equations.

use vstd::prelude::*;
use crate::group::build_groups;
use crate::group::groups_of;
use crate::model::AggregateSnapshot;
use crate::model::DirectoryV;
use crate::model::File;
use crate::model::FileV;
use crate::model::SnapshotV;
use crate::model::lemma_sum_sizes_take_le;
use crate::model::lemma_sum_sizes_take_step;
use crate::model::sum_sizes;
use crate::rank::sort_desc;
use crate::rank::sort_dirs;
use crate::rank::sort_files;
use crate::rank::sort_filetypes;
use crate::rank::sorted_desc;
use crate::rank::with_rank;
use crate::rank::lemma_sort_desc_sorted;
use crate::rank::lemma_sort_desc_stable;

verus! {

/// The snapshot with its total and its three rankings rebuilt from `tree`
/// and `files` in one consistent pass.
pub open spec fn spec_recompute(s: SnapshotV) -> SnapshotV {
    SnapshotV {
        tree: s.tree,
        files: s.files,
        combined_size: sum_sizes(s.files) as u64,
        files_by_size: sort_desc(s.files),
        dirs_by_size: sort_desc(s.tree),
        types_by_size: sort_desc(groups_of(s.files)),
    }
}

/// The derived views agree with their sources: recomputing would change
/// nothing.
pub open spec fn derived_consistent(s: SnapshotV) -> bool {
    s == spec_recompute(s)
}

/// Recomputation settles in one step: recomputing a recomputed snapshot
/// yields the same snapshot.
pub proof fn lemma_recompute_idempotent(s: SnapshotV)
    ensures
        spec_recompute(spec_recompute(s)) == spec_recompute(s),
{
    assert(spec_recompute(spec_recompute(s)) =~= spec_recompute(s));
}

/// Each recomputed ranking is ordered descending by its key, holds exactly
/// the elements of its source, and keeps elements of equal key in their
/// source order.
pub proof fn lemma_rankings_sorted(s: SnapshotV)
    ensures
        sorted_desc(spec_recompute(s).files_by_size),
        spec_recompute(s).files_by_size.to_multiset() == s.files.to_multiset(),
        forall|k: u64| with_rank(#[trigger] spec_recompute(s).files_by_size, k) == with_rank(s.files, k),
        sorted_desc(spec_recompute(s).dirs_by_size),
        spec_recompute(s).dirs_by_size.to_multiset() == s.tree.to_multiset(),
        forall|k: u64| with_rank(#[trigger] spec_recompute(s).dirs_by_size, k) == with_rank(s.tree, k),
        sorted_desc(spec_recompute(s).types_by_size),
        spec_recompute(s).types_by_size.to_multiset() == groups_of(s.files).to_multiset(),
        forall|k: u64|
            with_rank(#[trigger] spec_recompute(s).types_by_size, k) == with_rank(
                groups_of(s.files),
                k,
            ),
{
    lemma_sort_desc_sorted(s.files);
    lemma_sort_desc_sorted(s.tree);
    lemma_sort_desc_sorted(groups_of(s.files));
    assert forall|k: u64|
        with_rank(#[trigger] spec_recompute(s).files_by_size, k) == with_rank(s.files, k) by {
        lemma_sort_desc_stable(s.files, k);
    }
    assert forall|k: u64|
        with_rank(#[trigger] spec_recompute(s).dirs_by_size, k) == with_rank(s.tree, k) by {
        lemma_sort_desc_stable(s.tree, k);
    }
    assert forall|k: u64|
        with_rank(#[trigger] spec_recompute(s).types_by_size, k) == with_rank(
            groups_of(s.files),
            k,
        ) by {
        lemma_sort_desc_stable(groups_of(s.files), k);
    }
}

/// The total size of a file list.
pub fn total_size(files: &Vec<File>) -> (t: u64)
    requires
        sum_sizes(files.deep_view()) <= u64::MAX,
    ensures
        t == sum_sizes(files.deep_view()),
{
    let ghost dv = files.deep_view();
    let mut t: u64 = 0;
    let mut i: usize = 0;
    while i < files.len()
        invariant
            i <= dv.len(),
            dv == files.deep_view(),
            sum_sizes(dv) <= u64::MAX,
            t == sum_sizes(dv.take(i as int)),
        decreases dv.len() - i,
    {
        proof {
            assert(dv[i as int] == files@[i as int]@);
            lemma_sum_sizes_take_step(dv, i as int);
            lemma_sum_sizes_take_le(dv, i + 1 as int);
        }
        t = t + files[i].size;
        i = i + 1;
    }
    proof {
        assert(dv.take(dv.len() as int) =~= dv);
    }
    t
}

impl AggregateSnapshot {
    /// A new, empty snapshot: no directories, no files, everything zero.
    pub fn new() -> (s: AggregateSnapshot)
        ensures
            s@.tree.len() == 0,
            s@.files.len() == 0,
            s@.combined_size == 0,
            s@.files_by_size.len() == 0,
            s@.dirs_by_size.len() == 0,
            s@.types_by_size.len() == 0,
    {
        AggregateSnapshot {
            tree: Vec::new(),
            files: Vec::new(),
            combined_size: 0,
            files_by_size: Vec::new(),
            dirs_by_size: Vec::new(),
            types_by_size: Vec::new(),
        }
    }

    /// Rebuild the total and the three rankings from `tree` and `files`.
    pub fn recompute(&mut self)
        requires
            sum_sizes(old(self)@.files) <= u64::MAX,
        ensures
            final(self)@ == spec_recompute(old(self)@),
    {
        self.combined_size = total_size(&self.files);
        self.files_by_size = sort_files(&self.files);
        self.dirs_by_size = sort_dirs(&self.tree);
        let groups = build_groups(&self.files);
        self.types_by_size = sort_filetypes(&groups);
        proof {
            assert(self@ =~= spec_recompute(old(self)@));
        }
    }
}

/// The directory entries of `tree` at the given paths, in order, skipping
/// paths with no entry.
pub open spec fn resolve_subs(tree: Seq<DirectoryV>, subs: Seq<Seq<char>>) -> Seq<DirectoryV>
    decreases subs.len(),
{
    if subs.len() == 0 {
        Seq::empty()
    } else {
        let rest = resolve_subs(tree, subs.drop_last());
        if crate::scan::has_dir(tree, subs.last()) {
            rest.push(tree[crate::scan::dir_index(tree, subs.last())])
        } else {
            rest
        }
    }
}

impl crate::model::Directory {
    /// Fresh copies of this directory's files, largest first, stably.
    pub fn sorted_files(&self) -> (r: Vec<File>)
        ensures
            r.deep_view() == sort_desc(self@.files),
    {
        sort_files(&self.files)
    }

    /// Fresh copies of this directory's direct subdirectories, resolved in
    /// the snapshot's tree, largest combined size first, stably.  Children
    /// without a tree entry are skipped.
    pub fn sorted_subdirs(&self, info: &AggregateSnapshot) -> (r: Vec<crate::model::Directory>)
        ensures
            r.deep_view() == sort_desc(resolve_subs(info@.tree, self@.subdirectories)),
    {
        let ghost tv = info@.tree;
        let ghost sv = self@.subdirectories;
        let mut found: Vec<crate::model::Directory> = Vec::new();
        assert(found.deep_view() =~= resolve_subs(tv, sv.take(0)));
        let mut i: usize = 0;
        while i < self.subdirectories.len()
            invariant
                i <= sv.len(),
                tv == info@.tree,
                sv == self@.subdirectories,
                self.subdirectories@.len() == sv.len(),
                found.deep_view() == resolve_subs(tv, sv.take(i as int)),
            decreases sv.len() - i,
        {
            proof {
                assert(self.subdirectories@[i as int]@ == sv[i as int]);
                assert(sv.take(i + 1 as int).drop_last() =~= sv.take(i as int));
                assert(sv.take(i + 1 as int).last() == sv[i as int]);
            }
            match crate::scan::find_dir(&info.tree, &self.subdirectories[i]) {
                Some(di) => {
                    let ghost pre = found@;
                    proof {
                        crate::scan::lemma_dir_index(tv, sv[i as int]);
                        assert(di < info.tree@.len());
                    }
                    let d = info.tree[di].duplicate();
                    proof {
                        crate::scan::lemma_dir_index(tv, sv[i as int]);
                        assert(d@ == tv[crate::scan::dir_index(tv, sv[i as int])]);
                    }
                    found.push(d);
                    proof {
                        crate::model::lemma_vec_deep_view(&found);
                        crate::model::lemma_deep_view_push(pre, found@, d);
                        assert(found.deep_view() =~= resolve_subs(tv, sv.take(i + 1 as int)));
                    }
                },
                None => {
                    proof {
                        assert(found.deep_view() =~= resolve_subs(tv, sv.take(i + 1 as int)));
                    }
                },
            }
            i = i + 1;
        }
        proof {
            assert(sv.take(sv.len() as int) =~= sv);
        }
        sort_dirs(&found)
    }
}

/// Holds of the directories not at the deleted path.
pub open spec fn keep_dir_pred(p: Seq<char>) -> spec_fn(DirectoryV) -> bool {
    |d: DirectoryV| d.path != p
}

/// Holds of the files not at the deleted path.
pub open spec fn keep_file_pred(p: Seq<char>) -> spec_fn(FileV) -> bool {
    |f: FileV| f.path != p
}

/// The snapshot after a confirmed deletion of `p`: the tree entry at `p`
/// (if any) is removed, every file at `p` is removed, and the derived views
/// are recomputed.  Descendants of a deleted directory keep their own tree
/// entries and become unreachable from the root.
pub open spec fn spec_delete(s: SnapshotV, p: Seq<char>) -> SnapshotV {
    spec_recompute(
        SnapshotV {
            tree: s.tree.filter(keep_dir_pred(p)),
            files: s.files.filter(keep_file_pred(p)),
            ..s
        },
    )
}

/// A filter that keeps everything is the identity.
pub proof fn lemma_filter_all<T>(s: Seq<T>, pred: spec_fn(T) -> bool)
    requires
        forall|i: int| 0 <= i < s.len() ==> pred(#[trigger] s[i]),
    ensures
        s.filter(pred) == s,
    decreases s.len(),
{
    reveal(Seq::filter);
    if s.len() > 0 {
        assert forall|i: int| 0 <= i < s.drop_last().len() implies pred(
            #[trigger] s.drop_last()[i],
        ) by {
            assert(pred(s[i]));
        }
        lemma_filter_all(s.drop_last(), pred);
        assert(pred(s.last()));
        assert(s.drop_last().push(s.last()) =~= s);
    }
}

/// Filtering never increases the total size.
pub proof fn lemma_sum_sizes_filter_le(s: Seq<FileV>, pred: spec_fn(FileV) -> bool)
    ensures
        sum_sizes(s.filter(pred)) <= sum_sizes(s),
    decreases s.len(),
{
    reveal(Seq::filter);
    if s.len() > 0 {
        lemma_sum_sizes_filter_le(s.drop_last(), pred);
        if pred(s.last()) {
            assert(s.filter(pred) == s.drop_last().filter(pred).push(s.last()));
            crate::model::lemma_sum_sizes_push(s.drop_last().filter(pred), s.last());
        }
    }
}

/// One step of filtering a prefix.
pub proof fn lemma_filter_take_step<T>(s: Seq<T>, pred: spec_fn(T) -> bool, i: int)
    requires
        0 <= i < s.len(),
    ensures
        pred(s[i]) ==> s.take(i + 1).filter(pred) == s.take(i).filter(pred).push(s[i]),
        !pred(s[i]) ==> s.take(i + 1).filter(pred) == s.take(i).filter(pred),
{
    reveal_with_fuel(Seq::filter, 2);
    assert(s.take(i + 1).drop_last() =~= s.take(i));
    assert(s.take(i + 1).last() == s[i]);
}

/// Deleting a path that is neither a directory of the tree nor a file of
/// the list leaves a consistent snapshot unchanged.
pub proof fn lemma_delete_absent(s: SnapshotV, p: Seq<char>)
    requires
        derived_consistent(s),
        forall|k: int| 0 <= k < s.tree.len() ==> (#[trigger] s.tree[k]).path != p,
        forall|m: int| 0 <= m < s.files.len() ==> (#[trigger] s.files[m]).path != p,
    ensures
        spec_delete(s, p) == s,
{
    assert forall|k: int| 0 <= k < s.tree.len() implies keep_dir_pred(p)(#[trigger] s.tree[k]) by {
        assert(s.tree[k].path != p);
    }
    assert forall|m: int| 0 <= m < s.files.len() implies keep_file_pred(p)(
        #[trigger] s.files[m],
    ) by {
        assert(s.files[m].path != p);
    }
    lemma_filter_all(s.tree, keep_dir_pred(p));
    lemma_filter_all(s.files, keep_file_pred(p));
    assert(SnapshotV { tree: s.tree.filter(keep_dir_pred(p)), files: s.files.filter(keep_file_pred(p)), ..s } =~= s);
}

impl AggregateSnapshot {
    /// Apply a confirmed deletion of `path`: drop the tree entry at that
    /// path, drop every file at that path, and recompute the derived views.
    pub fn apply_deletion(&mut self, path: &String)
        requires
            sum_sizes(old(self)@.files) <= u64::MAX,
        ensures
            final(self)@ == spec_delete(old(self)@, path@),
    {
        let ghost tv = self@.tree;
        let ghost fv = self@.files;
        let mut kept_dirs: Vec<crate::model::Directory> = Vec::new();
        assert(kept_dirs.deep_view() =~= tv.take(0).filter(keep_dir_pred(path@))) by {
            reveal(Seq::filter);
            assert(tv.take(0) =~= Seq::<DirectoryV>::empty());
        }
        let mut i: usize = 0;
        while i < self.tree.len()
            invariant
                i <= tv.len(),
                tv == self@.tree,
                fv == self@.files,
                self.tree@.len() == tv.len(),
                sum_sizes(old(self)@.files) <= u64::MAX,
                self@ == old(self)@,
                kept_dirs.deep_view() == tv.take(i as int).filter(keep_dir_pred(path@)),
            decreases tv.len() - i,
        {
            let ghost pre = kept_dirs@;
            proof {
                assert(tv[i as int] == self.tree@[i as int]@);
                lemma_filter_take_step(tv, keep_dir_pred(path@), i as int);
            }
            if !(self.tree[i].path == *path) {
                let d = self.tree[i].duplicate();
                kept_dirs.push(d);
                proof {
                    crate::model::lemma_vec_deep_view(&kept_dirs);
                    crate::model::lemma_deep_view_push(pre, kept_dirs@, d);
                    assert(keep_dir_pred(path@)(tv[i as int]));
                    assert(kept_dirs.deep_view() == tv.take(i + 1 as int).filter(
                        keep_dir_pred(path@),
                    ));
                }
            } else {
                proof {
                    assert(!keep_dir_pred(path@)(tv[i as int]));
                }
            }
            i = i + 1;
        }
        proof {
            assert(tv.take(tv.len() as int) =~= tv);
        }
        let mut kept_files: Vec<File> = Vec::new();
        assert(kept_files.deep_view() =~= fv.take(0).filter(keep_file_pred(path@))) by {
            reveal(Seq::filter);
            assert(fv.take(0) =~= Seq::<FileV>::empty());
        }
        let mut j: usize = 0;
        while j < self.files.len()
            invariant
                j <= fv.len(),
                tv == self@.tree,
                fv == self@.files,
                self.files@.len() == fv.len(),
                sum_sizes(old(self)@.files) <= u64::MAX,
                self@ == old(self)@,
                kept_dirs.deep_view() == tv.filter(keep_dir_pred(path@)),
                kept_files.deep_view() == fv.take(j as int).filter(keep_file_pred(path@)),
            decreases fv.len() - j,
        {
            let ghost pre = kept_files@;
            proof {
                assert(fv[j as int] == self.files@[j as int]@);
                lemma_filter_take_step(fv, keep_file_pred(path@), j as int);
            }
            if !(self.files[j].path == *path) {
                let f = self.files[j].duplicate();
                kept_files.push(f);
                proof {
                    crate::model::lemma_vec_deep_view(&kept_files);
                    crate::model::lemma_deep_view_push(pre, kept_files@, f);
                    assert(keep_file_pred(path@)(fv[j as int]));
                    assert(kept_files.deep_view() == fv.take(j + 1 as int).filter(
                        keep_file_pred(path@),
                    ));
                }
            } else {
                proof {
                    assert(!keep_file_pred(path@)(fv[j as int]));
                }
            }
            j = j + 1;
        }
        proof {
            assert(fv.take(fv.len() as int) =~= fv);
        }
        self.tree = kept_dirs;
        self.files = kept_files;
        proof {
            lemma_sum_sizes_filter_le(fv, keep_file_pred(path@));
        }
        self.recompute();
        proof {
            assert(self@ =~= spec_delete(old(self)@, path@));
        }
    }
}

} // verus!
