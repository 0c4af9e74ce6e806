//! The entry catalog: files, directories, extension groups, and the
//! aggregate snapshot that a scan publishes.
//!
//! Each executable type has a mathematical view (`FileV`, `DirectoryV`,
//! `FileTypeV`, `SnapshotV`) over `Seq`, and every contract in the crate
//! speaks about those views.

use vstd::prelude::*;

verus! {

/// A file found by the enumerator.  `modified` is seconds since the epoch,
/// or `None` when the modification time could not be resolved.
#[derive(Debug, PartialEq)]
pub struct File {
    pub path: String,
    pub size: u64,
    pub modified: Option<u64>,
}

/// A directory of the scanned subtree.  `own_size` is the total size of the
/// files directly inside it; `combined_size` adds everything below it.
/// `subdirectories` holds the paths of its direct children; the entries
/// themselves live in the snapshot's flat `tree`.
#[derive(Debug, PartialEq)]
pub struct Directory {
    pub path: String,
    pub own_size: u64,
    pub combined_size: u64,
    pub files: Vec<File>,
    pub subdirectories: Vec<String>,
}

/// All files sharing one extension, with their total size.
#[derive(Debug, PartialEq)]
pub struct FileType {
    pub ext: String,
    pub size: u64,
    pub files: Vec<File>,
}

/// The unit of publication: the flat directory tree, the flat file list,
/// the total size, and the three derived rankings, which are pure functions
/// of `tree` and `files` and are only ever rebuilt by recomputation.
#[derive(Debug, PartialEq)]
pub struct AggregateSnapshot {
    pub tree: Vec<Directory>,
    pub files: Vec<File>,
    pub combined_size: u64,
    pub files_by_size: Vec<File>,
    pub dirs_by_size: Vec<Directory>,
    pub types_by_size: Vec<FileType>,
}

#[verifier::ext_equal]
pub struct FileV {
    pub path: Seq<char>,
    pub size: u64,
    pub modified: Option<u64>,
}

#[verifier::ext_equal]
pub struct DirectoryV {
    pub path: Seq<char>,
    pub own_size: u64,
    pub combined_size: u64,
    pub files: Seq<FileV>,
    pub subdirectories: Seq<Seq<char>>,
}

#[verifier::ext_equal]
pub struct FileTypeV {
    pub ext: Seq<char>,
    pub size: u64,
    pub files: Seq<FileV>,
}

#[verifier::ext_equal]
pub struct SnapshotV {
    pub tree: Seq<DirectoryV>,
    pub files: Seq<FileV>,
    pub combined_size: u64,
    pub files_by_size: Seq<FileV>,
    pub dirs_by_size: Seq<DirectoryV>,
    pub types_by_size: Seq<FileTypeV>,
}

impl View for File {
    type V = FileV;

    open spec fn view(&self) -> FileV {
        FileV { path: self.path@, size: self.size, modified: self.modified }
    }
}

impl DeepView for File {
    type V = FileV;

    open spec fn deep_view(&self) -> FileV {
        self@
    }
}

impl View for Directory {
    type V = DirectoryV;

    open spec fn view(&self) -> DirectoryV {
        DirectoryV {
            path: self.path@,
            own_size: self.own_size,
            combined_size: self.combined_size,
            files: self.files.deep_view(),
            subdirectories: self.subdirectories.deep_view(),
        }
    }
}

impl DeepView for Directory {
    type V = DirectoryV;

    open spec fn deep_view(&self) -> DirectoryV {
        self@
    }
}

impl View for FileType {
    type V = FileTypeV;

    open spec fn view(&self) -> FileTypeV {
        FileTypeV { ext: self.ext@, size: self.size, files: self.files.deep_view() }
    }
}

impl DeepView for FileType {
    type V = FileTypeV;

    open spec fn deep_view(&self) -> FileTypeV {
        self@
    }
}

impl View for AggregateSnapshot {
    type V = SnapshotV;

    open spec fn view(&self) -> SnapshotV {
        SnapshotV {
            tree: self.tree.deep_view(),
            files: self.files.deep_view(),
            combined_size: self.combined_size,
            files_by_size: self.files_by_size.deep_view(),
            dirs_by_size: self.dirs_by_size.deep_view(),
            types_by_size: self.types_by_size.deep_view(),
        }
    }
}

/// Total size, as a mathematical integer, of a list of files.
pub open spec fn sum_sizes(s: Seq<FileV>) -> int
    decreases s.len(),
{
    if s.len() == 0 {
        0
    } else {
        sum_sizes(s.drop_last()) + s.last().size
    }
}

/// Total own size, as a mathematical integer, of a list of directories.
pub open spec fn sum_own(t: Seq<DirectoryV>) -> int
    decreases t.len(),
{
    if t.len() == 0 {
        0
    } else {
        sum_own(t.drop_last()) + t.last().own_size
    }
}

pub proof fn lemma_sum_sizes_push(s: Seq<FileV>, f: FileV)
    ensures
        sum_sizes(s.push(f)) == sum_sizes(s) + f.size,
{
    assert(s.push(f).drop_last() =~= s);
}

/// One step of summing a prefix.
pub proof fn lemma_sum_sizes_take_step(s: Seq<FileV>, i: int)
    requires
        0 <= i < s.len(),
    ensures
        sum_sizes(s.take(i + 1)) == sum_sizes(s.take(i)) + s[i].size,
{
    assert(s.take(i + 1).drop_last() =~= s.take(i));
    assert(s.take(i + 1).last() == s[i]);
}

/// A prefix never sums to more than the whole.
pub proof fn lemma_sum_sizes_take_le(s: Seq<FileV>, i: int)
    requires
        0 <= i <= s.len(),
    ensures
        sum_sizes(s.take(i)) <= sum_sizes(s),
    decreases s.len() - i,
{
    if i == s.len() {
        assert(s.take(i) =~= s);
    } else {
        lemma_sum_sizes_take_step(s, i);
        lemma_sum_sizes_take_le(s, i + 1);
    }
}

pub proof fn lemma_sum_own_nonneg(t: Seq<DirectoryV>)
    ensures
        0 <= sum_own(t),
    decreases t.len(),
{
    if t.len() > 0 {
        lemma_sum_own_nonneg(t.drop_last());
    }
}

pub proof fn lemma_sum_own_push(t: Seq<DirectoryV>, d: DirectoryV)
    ensures
        sum_own(t.push(d)) == sum_own(t) + d.own_size,
{
    assert(t.push(d).drop_last() =~= t);
}

/// Updating one entry moves the total by the difference at that entry.
pub proof fn lemma_sum_own_update(t: Seq<DirectoryV>, i: int, d: DirectoryV)
    requires
        0 <= i < t.len(),
    ensures
        sum_own(t.update(i, d)) == sum_own(t) - t[i].own_size + d.own_size,
    decreases t.len(),
{
    let u = t.update(i, d);
    if i == t.len() - 1 {
        assert(u.drop_last() =~= t.drop_last());
        assert(u.last() == d);
    } else {
        assert(u.drop_last() =~= t.drop_last().update(i, d));
        assert(u.last() == t.last());
        lemma_sum_own_update(t.drop_last(), i, d);
    }
}

/// Every single entry's own size is at most the total.
pub proof fn lemma_sum_own_each(t: Seq<DirectoryV>, k: int)
    requires
        0 <= k < t.len(),
    ensures
        t[k].own_size <= sum_own(t),
    decreases t.len(),
{
    lemma_sum_own_nonneg(t.drop_last());
    if k == t.len() - 1 {
    } else {
        lemma_sum_own_each(t.drop_last(), k);
        assert(t.drop_last()[k] == t[k]);
    }
}

/// When exactly one entry's own size moves by `delta`, the total moves by
/// `delta`.
pub proof fn lemma_sum_own_same_except(t1: Seq<DirectoryV>, t2: Seq<DirectoryV>, j: int, delta: int)
    requires
        t1.len() == t2.len(),
        0 <= j < t1.len(),
        forall|k: int|
            0 <= k < t1.len() && k != j ==> (#[trigger] t2[k]).own_size == (
            #[trigger] t1[k]).own_size,
        t2[j].own_size == t1[j].own_size + delta,
    ensures
        sum_own(t2) == sum_own(t1) + delta,
    decreases t1.len(),
{
    let n = t1.len() as int;
    if j == n - 1 {
        assert forall|k: int| 0 <= k < t1.drop_last().len() implies (
        #[trigger] t2.drop_last()[k]).own_size == (#[trigger] t1.drop_last()[k]).own_size by {
            assert(t2[k].own_size == t1[k].own_size);
        }
        lemma_sum_own_same_except_none(t1.drop_last(), t2.drop_last());
    } else {
        assert(t2.drop_last()[j].own_size == t1.drop_last()[j].own_size + delta);
        assert forall|k: int|
            0 <= k < t1.drop_last().len() && k != j implies (
        #[trigger] t2.drop_last()[k]).own_size == (#[trigger] t1.drop_last()[k]).own_size by {
            assert(t2[k].own_size == t1[k].own_size);
        }
        lemma_sum_own_same_except(t1.drop_last(), t2.drop_last(), j, delta);
        assert(t2.last().own_size == t1.last().own_size);
    }
}

/// Equal own sizes entrywise give equal totals.
pub proof fn lemma_sum_own_same_except_none(t1: Seq<DirectoryV>, t2: Seq<DirectoryV>)
    requires
        t1.len() == t2.len(),
        forall|k: int|
            0 <= k < t1.len() ==> (#[trigger] t2[k]).own_size == (#[trigger] t1[k]).own_size,
    ensures
        sum_own(t2) == sum_own(t1),
    decreases t1.len(),
{
    if t1.len() > 0 {
        assert forall|k: int| 0 <= k < t1.drop_last().len() implies (
        #[trigger] t2.drop_last()[k]).own_size == (#[trigger] t1.drop_last()[k]).own_size by {
            assert(t2[k].own_size == t1[k].own_size);
        }
        lemma_sum_own_same_except_none(t1.drop_last(), t2.drop_last());
        assert(t2.last().own_size == t1.last().own_size);
    }
}

/// Pushing one element onto a list extends its deep view by that
/// element's view.
pub proof fn lemma_deep_view_push<T: DeepView>(pre: Seq<T>, post: Seq<T>, x: T)
    requires
        post == pre.push(x),
    ensures
        post.map_values(|t: T| t.deep_view()) == pre.map_values(|t: T| t.deep_view()).push(
            x.deep_view(),
        ),
{
    assert(post.map_values(|t: T| t.deep_view()) =~= pre.map_values(|t: T| t.deep_view()).push(
        x.deep_view(),
    ));
}

/// The deep view of a vector is its element views, in order.
pub proof fn lemma_vec_deep_view<T: DeepView>(v: &Vec<T>)
    ensures
        v.deep_view() == v@.map_values(|t: T| t.deep_view()),
{
    assert(v.deep_view() =~= v@.map_values(|t: T| t.deep_view()));
}

impl File {
    /// An identical copy.
    pub fn duplicate(&self) -> (r: File)
        ensures
            r@ == self@,
    {
        File { path: self.path.clone(), size: self.size, modified: self.modified }
    }
}

/// An identical copy of a file list.
pub fn duplicate_files(v: &Vec<File>) -> (r: Vec<File>)
    ensures
        r.deep_view() == v.deep_view(),
{
    let mut r: Vec<File> = Vec::new();
    let mut i: usize = 0;
    while i < v.len()
        invariant
            i <= v.len(),
            r.deep_view() == v.deep_view().take(i as int),
        decreases v.len() - i,
    {
        let ghost pre = r@;
        proof {
            lemma_vec_deep_view(&r);
        }
        let x = v[i].duplicate();
        proof {
            assert(x.deep_view() == v.deep_view()[i as int]);
        }
        r.push(x);
        proof {
            lemma_vec_deep_view(&r);
            lemma_deep_view_push(pre, r@, x);
            assert(r.deep_view() =~= v.deep_view().take(i + 1 as int));
        }
        i = i + 1;
    }
    assert(v.deep_view().take(v.len() as int) =~= v.deep_view());
    r
}

/// An identical copy of a path list.
pub fn duplicate_paths(v: &Vec<String>) -> (r: Vec<String>)
    ensures
        r.deep_view() == v.deep_view(),
{
    let mut r: Vec<String> = Vec::new();
    let mut i: usize = 0;
    while i < v.len()
        invariant
            i <= v.len(),
            r.deep_view() == v.deep_view().take(i as int),
        decreases v.len() - i,
    {
        let ghost pre = r@;
        proof {
            lemma_vec_deep_view(&r);
        }
        let x = v[i].clone();
        proof {
            assert(x.deep_view() == v.deep_view()[i as int]);
        }
        r.push(x);
        proof {
            lemma_vec_deep_view(&r);
            lemma_deep_view_push(pre, r@, x);
            assert(r.deep_view() =~= v.deep_view().take(i + 1 as int));
        }
        i = i + 1;
    }
    assert(v.deep_view().take(v.len() as int) =~= v.deep_view());
    r
}

impl Directory {
    /// An identical copy.
    pub fn duplicate(&self) -> (r: Directory)
        ensures
            r@ == self@,
    {
        let r = Directory {
            path: self.path.clone(),
            own_size: self.own_size,
            combined_size: self.combined_size,
            files: duplicate_files(&self.files),
            subdirectories: duplicate_paths(&self.subdirectories),
        };
        assert(r@ =~= self@);
        r
    }
}

impl FileType {
    /// An identical copy.
    pub fn duplicate(&self) -> (r: FileType)
        ensures
            r@ == self@,
    {
        let r = FileType {
            ext: self.ext.clone(),
            size: self.size,
            files: duplicate_files(&self.files),
        };
        assert(r@ =~= self@);
        r
    }
}

/// An identical copy of a directory list.
pub fn duplicate_dirs(v: &Vec<Directory>) -> (r: Vec<Directory>)
    ensures
        r.deep_view() == v.deep_view(),
{
    let mut r: Vec<Directory> = Vec::new();
    let mut i: usize = 0;
    while i < v.len()
        invariant
            i <= v.len(),
            r.deep_view() == v.deep_view().take(i as int),
        decreases v.len() - i,
    {
        let ghost pre = r@;
        proof {
            lemma_vec_deep_view(&r);
        }
        let x = v[i].duplicate();
        proof {
            assert(x.deep_view() == v.deep_view()[i as int]);
        }
        r.push(x);
        proof {
            lemma_vec_deep_view(&r);
            lemma_deep_view_push(pre, r@, x);
            assert(r.deep_view() =~= v.deep_view().take(i + 1 as int));
        }
        i = i + 1;
    }
    assert(v.deep_view().take(v.len() as int) =~= v.deep_view());
    r
}

} // verus!
