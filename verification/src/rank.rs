//! Stable descending sorting for the derived rankings.
//!
//! The specification is a stable insertion sort, `sort_desc`: each element is
//! placed after every earlier element ranked at or above it.  The ranking
//! lemmas state the three properties every derived view relies on: the result
//! is ordered descending by rank, it holds exactly the same elements, and
//! elements of equal rank keep their original relative order.

use vstd::prelude::*;
use vstd::seq_lib::to_multiset_insert;
use crate::model::Directory;
use crate::model::DirectoryV;
use crate::model::File;
use crate::model::FileType;
use crate::model::FileTypeV;
use crate::model::FileV;

verus! {

/// The key by which a ranking orders its entries, largest first.
pub trait Ranked {
    spec fn rank(self) -> u64;
}

impl Ranked for FileV {
    open spec fn rank(self) -> u64 {
        self.size
    }
}

impl Ranked for DirectoryV {
    open spec fn rank(self) -> u64 {
        self.combined_size
    }
}

impl Ranked for FileTypeV {
    open spec fn rank(self) -> u64 {
        self.size
    }
}

/// Where `x` lands when inserted into `s`: after every element ranked at or
/// above `x`, before the first one ranked strictly below it.
pub open spec fn insert_desc<T: Ranked>(x: T, s: Seq<T>) -> Seq<T>
    decreases s.len(),
{
    if s.len() == 0 {
        seq![x]
    } else if s[0].rank() < x.rank() {
        seq![x] + s
    } else {
        seq![s[0]] + insert_desc(x, s.drop_first())
    }
}

/// Stable insertion sort, descending by rank.
pub open spec fn sort_desc<T: Ranked>(s: Seq<T>) -> Seq<T>
    decreases s.len(),
{
    if s.len() == 0 {
        Seq::empty()
    } else {
        insert_desc(s.last(), sort_desc(s.drop_last()))
    }
}

/// Ordered descending by rank.
pub open spec fn sorted_desc<T: Ranked>(s: Seq<T>) -> bool {
    forall|i: int, j: int| 0 <= i <= j < s.len() ==> #[trigger] s[i].rank() >= #[trigger] s[j].rank()
}

/// Holds of the elements ranked exactly `k`.
pub open spec fn rank_pred<T: Ranked>(k: u64) -> spec_fn(T) -> bool {
    |t: T| t.rank() == k
}

/// The subsequence of `s` ranked exactly `k`, in its original order.
pub open spec fn with_rank<T: Ranked>(s: Seq<T>, k: u64) -> Seq<T> {
    s.filter(rank_pred(k))
}

/// The position where `insert_desc` places its element: the index of the
/// first element ranked strictly below `x`, or the length if there is none.
pub open spec fn ins_pos<T: Ranked>(x: T, s: Seq<T>) -> int
    decreases s.len(),
{
    if s.len() == 0 {
        0
    } else if s[0].rank() < x.rank() {
        0
    } else {
        1 + ins_pos(x, s.drop_first())
    }
}

/// What the insertion position means: everything before it is ranked at or
/// above `x`, the element at it (if any) strictly below, and inserting
/// there is what `insert_desc` does.
pub proof fn lemma_ins_pos<T: Ranked>(x: T, s: Seq<T>)
    ensures
        0 <= ins_pos(x, s) <= s.len(),
        forall|m: int| 0 <= m < ins_pos(x, s) ==> #[trigger] s[m].rank() >= x.rank(),
        ins_pos(x, s) == s.len() || s[ins_pos(x, s)].rank() < x.rank(),
        insert_desc(x, s) == s.insert(ins_pos(x, s), x),
    decreases s.len(),
{
    if s.len() == 0 {
        assert(insert_desc(x, s) =~= s.insert(0, x));
    } else if s[0].rank() < x.rank() {
        assert(insert_desc(x, s) =~= s.insert(0, x));
    } else {
        lemma_ins_pos(x, s.drop_first());
        let p = ins_pos(x, s.drop_first());
        assert forall|m: int| 0 <= m < 1 + p implies #[trigger] s[m].rank() >= x.rank() by {
            if m > 0 {
                assert(s.drop_first()[m - 1].rank() >= x.rank());
            }
        }
        assert(insert_desc(x, s) =~= s.insert(1 + p, x)) by {
            assert(insert_desc(x, s) == seq![s[0]] + s.drop_first().insert(p, x));
        }
    }
}

/// Inserting keeps the elements: the result is the original multiset plus
/// the new element.
pub proof fn lemma_insert_desc_multiset<T: Ranked>(x: T, s: Seq<T>)
    ensures
        insert_desc(x, s).len() == s.len() + 1,
        insert_desc(x, s).to_multiset() == s.to_multiset().insert(x),
{
    lemma_ins_pos(x, s);
    to_multiset_insert(s, ins_pos(x, s), x);
}

/// Inserting into an ordered sequence keeps it ordered.
pub proof fn lemma_insert_desc_sorted<T: Ranked>(x: T, s: Seq<T>)
    requires
        sorted_desc(s),
    ensures
        sorted_desc(insert_desc(x, s)),
{
    lemma_ins_pos(x, s);
    let p = ins_pos(x, s);
    let r = insert_desc(x, s);
    assert forall|i: int, j: int| 0 <= i <= j < r.len() implies #[trigger] r[i].rank()
        >= #[trigger] r[j].rank() by {
        assert(r == s.insert(p, x));
        s.insert_ensures(p, x);
        if p < s.len() {
            assert(s[p].rank() < x.rank());
        }
        if i < p {
            assert(r[i] == s[i]);
        }
        if p < i {
            assert(r[i] == s[i - 1]);
        }
        if j < p {
            assert(r[j] == s[j]);
        }
        if p < j {
            assert(r[j] == s[j - 1]);
        }
    }
}

/// Sorting yields an ordered sequence with exactly the original elements.
pub proof fn lemma_sort_desc_sorted<T: Ranked>(s: Seq<T>)
    ensures
        sort_desc(s).len() == s.len(),
        sorted_desc(sort_desc(s)),
        sort_desc(s).to_multiset() == s.to_multiset(),
    decreases s.len(),
{
    broadcast use vstd::seq_lib::group_to_multiset_ensures;

    if s.len() == 0 {
        assert(s.to_multiset() =~= Seq::<T>::empty().to_multiset());
    } else {
        lemma_sort_desc_sorted(s.drop_last());
        lemma_insert_desc_sorted(s.last(), sort_desc(s.drop_last()));
        lemma_insert_desc_multiset(s.last(), sort_desc(s.drop_last()));
        assert(s =~= s.drop_last().push(s.last()));
        assert(s.drop_last().push(s.last()).to_multiset() == s.drop_last().to_multiset().insert(
            s.last(),
        ));
    }
}

/// A sequence none of whose elements is ranked `k` filters to nothing.
proof fn lemma_with_rank_empty<T: Ranked>(s: Seq<T>, k: u64)
    requires
        forall|i: int| 0 <= i < s.len() ==> #[trigger] s[i].rank() != k,
    ensures
        with_rank(s, k) == Seq::<T>::empty(),
    decreases s.len(),
{
    reveal(Seq::filter);
    if s.len() == 0 {
    } else {
        assert forall|i: int| 0 <= i < s.drop_last().len() implies #[trigger] s.drop_last()[i].rank()
            != k by {
            assert(s[i].rank() != k);
        }
        lemma_with_rank_empty(s.drop_last(), k);
        assert(s.last().rank() != k);
    }
}

/// Filtering a one-element sequence.
proof fn lemma_with_rank_singleton<T: Ranked>(x: T, k: u64)
    ensures
        x.rank() == k ==> with_rank(seq![x], k) == seq![x],
        x.rank() != k ==> with_rank(seq![x], k) == Seq::<T>::empty(),
{
    reveal_with_fuel(Seq::filter, 2);
    assert(seq![x].drop_last() =~= Seq::<T>::empty());
    if x.rank() == k {
        assert(with_rank(seq![x], k) =~= seq![x]);
    } else {
        assert(with_rank(seq![x], k) =~= Seq::<T>::empty());
    }
}

/// Inserting into an ordered sequence places the new element after every
/// element of its own rank.
proof fn lemma_insert_desc_with_rank<T: Ranked>(x: T, s: Seq<T>, k: u64)
    requires
        sorted_desc(s),
    ensures
        x.rank() == k ==> with_rank(insert_desc(x, s), k) == with_rank(s, k).push(x),
        x.rank() != k ==> with_rank(insert_desc(x, s), k) == with_rank(s, k),
{
    broadcast use vstd::seq_lib::group_filter_ensures;

    lemma_ins_pos(x, s);
    let p = ins_pos(x, s);
    let pred = rank_pred::<T>(k);
    let a = s.subrange(0, p);
    let b = s.subrange(p, s.len() as int);
    assert(s =~= a + b);
    assert(insert_desc(x, s) =~= (a + seq![x]) + b) by {
        assert(insert_desc(x, s) == s.insert(p, x));
    }
    Seq::filter_distributes_over_add(a + seq![x], b, pred);
    Seq::filter_distributes_over_add(a, seq![x], pred);
    Seq::filter_distributes_over_add(a, b, pred);
    lemma_with_rank_singleton(x, k);
    if x.rank() == k {
        assert forall|i: int| 0 <= i < b.len() implies #[trigger] b[i].rank() != k by {
            assert(b[i] == s[p + i]);
            assert(s[p].rank() >= s[p + i].rank());
            assert(s[p].rank() < x.rank());
        }
        lemma_with_rank_empty(b, k);
        assert(with_rank(insert_desc(x, s), k) =~= a.filter(pred).push(x));
        assert(with_rank(s, k) =~= a.filter(pred));
    } else {
        assert(with_rank(insert_desc(x, s), k) =~= a.filter(pred) + b.filter(pred));
        assert(with_rank(s, k) =~= a.filter(pred) + b.filter(pred));
    }
}

/// Stability: sorting keeps the elements of each rank in their original
/// relative order.
pub proof fn lemma_sort_desc_stable<T: Ranked>(s: Seq<T>, k: u64)
    ensures
        with_rank(sort_desc(s), k) == with_rank(s, k),
    decreases s.len(),
{
    broadcast use vstd::seq_lib::group_filter_ensures;

    if s.len() == 0 {
        reveal(Seq::filter);
    } else {
        let pred = rank_pred::<T>(k);
        lemma_sort_desc_stable(s.drop_last(), k);
        lemma_sort_desc_sorted(s.drop_last());
        lemma_insert_desc_with_rank(s.last(), sort_desc(s.drop_last()), k);
        assert(s =~= s.drop_last() + seq![s.last()]);
        Seq::filter_distributes_over_add(s.drop_last(), seq![s.last()], pred);
        lemma_with_rank_singleton(s.last(), k);
        if s.last().rank() == k {
            assert(with_rank(s, k) =~= with_rank(s.drop_last(), k).push(s.last()));
        } else {
            assert(with_rank(s, k) =~= with_rank(s.drop_last(), k));
        }
    }
}

/// Insert one file into an ordered list at its stable position.
fn insert_file(v: Vec<File>, x: File) -> (r: Vec<File>)
    ensures
        r.deep_view() == insert_desc(x@, v.deep_view()),
{
    let ghost dv = v.deep_view();
    let mut out = v;
    let mut i: usize = 0;
    while i < out.len() && out[i].size >= x.size
        invariant
            out@ == v@,
            dv == v.deep_view(),
            i <= out@.len(),
            forall|m: int| 0 <= m < i ==> #[trigger] dv[m].rank() >= x@.rank(),
        decreases out@.len() - i,
    {
        proof {
            assert(dv[i as int] == out@[i as int]@);
        }
        i = i + 1;
    }
    proof {
        if i < out@.len() {
            assert(dv[i as int] == out@[i as int]@);
        }
        lemma_ins_pos(x@, dv);
        let p = ins_pos(x@, dv);
        if i < p {
            assert(dv[i as int].rank() >= x@.rank());
            assert(false);
        }
        if p < i {
            assert(dv[p].rank() >= x@.rank());
            assert(false);
        }
    }
    out.insert(i, x);
    proof {
        let j = i as int;
        dv.insert_ensures(j, x@);
        v@.insert_ensures(j, x);
        assert forall|m: int| 0 <= m < out@.len() implies out.deep_view()[m] == dv.insert(j, x@)[m]
            by {
            assert(out.deep_view()[m] == out@[m]@);
            if m < j {
                assert(out@[m] == v@[m]);
                assert(dv.insert(j, x@)[m] == dv[m]);
                assert(dv[m] == v@[m]@);
            } else if m == j {
                assert(out@[m] == x);
            } else {
                assert(out@[m] == v@[m - 1]);
                assert(dv.insert(j, x@)[m] == dv[m - 1]);
                assert(dv[m - 1] == v@[m - 1]@);
            }
        }
        assert(out.deep_view() =~= dv.insert(j, x@));
    }
    out
}

/// A copy of the file list, ordered descending by size, stably.
pub fn sort_files(v: &Vec<File>) -> (r: Vec<File>)
    ensures
        r.deep_view() == sort_desc(v.deep_view()),
{
    let ghost dv = v.deep_view();
    let mut out: Vec<File> = Vec::new();
    assert(out.deep_view() =~= sort_desc(dv.take(0)));
    let mut i: usize = 0;
    while i < v.len()
        invariant
            i <= v@.len(),
            dv == v.deep_view(),
            out.deep_view() == sort_desc(dv.take(i as int)),
        decreases v@.len() - i,
    {
        let x = v[i].duplicate();
        proof {
            assert(x@ == dv[i as int]);
        }
        out = insert_file(out, x);
        proof {
            assert(dv.take(i + 1 as int).drop_last() =~= dv.take(i as int));
            assert(dv.take(i + 1 as int).last() == dv[i as int]);
        }
        i = i + 1;
    }
    proof {
        assert(dv.take(dv.len() as int) =~= dv);
    }
    out
}

/// Insert one directory into an ordered list at its stable position.
fn insert_dir(v: Vec<Directory>, x: Directory) -> (r: Vec<Directory>)
    ensures
        r.deep_view() == insert_desc(x@, v.deep_view()),
{
    let ghost dv = v.deep_view();
    let mut out = v;
    let mut i: usize = 0;
    while i < out.len() && out[i].combined_size >= x.combined_size
        invariant
            out@ == v@,
            dv == v.deep_view(),
            i <= out@.len(),
            forall|m: int| 0 <= m < i ==> #[trigger] dv[m].rank() >= x@.rank(),
        decreases out@.len() - i,
    {
        proof {
            assert(dv[i as int] == out@[i as int]@);
        }
        i = i + 1;
    }
    proof {
        if i < out@.len() {
            assert(dv[i as int] == out@[i as int]@);
        }
        lemma_ins_pos(x@, dv);
        let p = ins_pos(x@, dv);
        if i < p {
            assert(dv[i as int].rank() >= x@.rank());
            assert(false);
        }
        if p < i {
            assert(dv[p].rank() >= x@.rank());
            assert(false);
        }
    }
    out.insert(i, x);
    proof {
        let j = i as int;
        dv.insert_ensures(j, x@);
        v@.insert_ensures(j, x);
        assert forall|m: int| 0 <= m < out@.len() implies out.deep_view()[m] == dv.insert(j, x@)[m]
            by {
            assert(out.deep_view()[m] == out@[m]@);
            if m < j {
                assert(out@[m] == v@[m]);
                assert(dv.insert(j, x@)[m] == dv[m]);
                assert(dv[m] == v@[m]@);
            } else if m == j {
                assert(out@[m] == x);
            } else {
                assert(out@[m] == v@[m - 1]);
                assert(dv.insert(j, x@)[m] == dv[m - 1]);
                assert(dv[m - 1] == v@[m - 1]@);
            }
        }
        assert(out.deep_view() =~= dv.insert(j, x@));
    }
    out
}

/// A copy of the directory list, ordered descending by combined_size, stably.
pub fn sort_dirs(v: &Vec<Directory>) -> (r: Vec<Directory>)
    ensures
        r.deep_view() == sort_desc(v.deep_view()),
{
    let ghost dv = v.deep_view();
    let mut out: Vec<Directory> = Vec::new();
    assert(out.deep_view() =~= sort_desc(dv.take(0)));
    let mut i: usize = 0;
    while i < v.len()
        invariant
            i <= v@.len(),
            dv == v.deep_view(),
            out.deep_view() == sort_desc(dv.take(i as int)),
        decreases v@.len() - i,
    {
        let x = v[i].duplicate();
        proof {
            assert(x@ == dv[i as int]);
        }
        out = insert_dir(out, x);
        proof {
            assert(dv.take(i + 1 as int).drop_last() =~= dv.take(i as int));
            assert(dv.take(i + 1 as int).last() == dv[i as int]);
        }
        i = i + 1;
    }
    proof {
        assert(dv.take(dv.len() as int) =~= dv);
    }
    out
}

/// Insert one extension group into an ordered list at its stable position.
fn insert_filetype(v: Vec<FileType>, x: FileType) -> (r: Vec<FileType>)
    ensures
        r.deep_view() == insert_desc(x@, v.deep_view()),
{
    let ghost dv = v.deep_view();
    let mut out = v;
    let mut i: usize = 0;
    while i < out.len() && out[i].size >= x.size
        invariant
            out@ == v@,
            dv == v.deep_view(),
            i <= out@.len(),
            forall|m: int| 0 <= m < i ==> #[trigger] dv[m].rank() >= x@.rank(),
        decreases out@.len() - i,
    {
        proof {
            assert(dv[i as int] == out@[i as int]@);
        }
        i = i + 1;
    }
    proof {
        if i < out@.len() {
            assert(dv[i as int] == out@[i as int]@);
        }
        lemma_ins_pos(x@, dv);
        let p = ins_pos(x@, dv);
        if i < p {
            assert(dv[i as int].rank() >= x@.rank());
            assert(false);
        }
        if p < i {
            assert(dv[p].rank() >= x@.rank());
            assert(false);
        }
    }
    out.insert(i, x);
    proof {
        let j = i as int;
        dv.insert_ensures(j, x@);
        v@.insert_ensures(j, x);
        assert forall|m: int| 0 <= m < out@.len() implies out.deep_view()[m] == dv.insert(j, x@)[m]
            by {
            assert(out.deep_view()[m] == out@[m]@);
            if m < j {
                assert(out@[m] == v@[m]);
                assert(dv.insert(j, x@)[m] == dv[m]);
                assert(dv[m] == v@[m]@);
            } else if m == j {
                assert(out@[m] == x);
            } else {
                assert(out@[m] == v@[m - 1]);
                assert(dv.insert(j, x@)[m] == dv[m - 1]);
                assert(dv[m - 1] == v@[m - 1]@);
            }
        }
        assert(out.deep_view() =~= dv.insert(j, x@));
    }
    out
}

/// A copy of the extension group list, ordered descending by size, stably.
pub fn sort_filetypes(v: &Vec<FileType>) -> (r: Vec<FileType>)
    ensures
        r.deep_view() == sort_desc(v.deep_view()),
{
    let ghost dv = v.deep_view();
    let mut out: Vec<FileType> = Vec::new();
    assert(out.deep_view() =~= sort_desc(dv.take(0)));
    let mut i: usize = 0;
    while i < v.len()
        invariant
            i <= v@.len(),
            dv == v.deep_view(),
            out.deep_view() == sort_desc(dv.take(i as int)),
        decreases v@.len() - i,
    {
        let x = v[i].duplicate();
        proof {
            assert(x@ == dv[i as int]);
        }
        out = insert_filetype(out, x);
        proof {
            assert(dv.take(i + 1 as int).drop_last() =~= dv.take(i as int));
            assert(dv.take(i + 1 as int).last() == dv[i as int]);
        }
        i = i + 1;
    }
    proof {
        assert(dv.take(dv.len() as int) =~= dv);
    }
    out
}

} // verus!
