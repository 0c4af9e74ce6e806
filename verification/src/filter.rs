//! The filter chain evaluator.
//!
//! A chain is an ordered list of filters combined with AND semantics over
//! the per-file tests, plus a global result cap: candidates are taken in
//! the given order, a candidate is yielded only if every per-file filter
//! accepts it, and production stops once the smallest `MaxResults` bound of
//! the chain has been yielded.

use vstd::prelude::*;
use crate::model::File;
use crate::model::FileV;
use crate::model::lemma_deep_view_push;
use crate::model::lemma_vec_deep_view;
use crate::snapshot::lemma_filter_take_step;

verus! {

/// One filter of a chain.  Sizes are in whole mebibytes, ages in whole
/// days; `MaxResults` caps how many files the whole evaluation yields.
#[derive(Clone, Copy, Debug, PartialEq, Eq, Structural)]
pub enum Filter {
    MinAge(u64),
    MaxAge(u64),
    MinSize(u64),
    MaxResults(u64),
}

/// Bytes per mebibyte.
pub const BYTES_PER_MB: u64 = 1048576;

/// Seconds per day.
pub const SECONDS_PER_DAY: u64 = 86400;

/// The age of a file at time `now` in seconds, when its modification time
/// resolved and does not lie in the future; unknown otherwise.
pub open spec fn age_of(f: FileV, now: u64) -> Option<int> {
    match f.modified {
        Some(m) => if m <= now {
            Some(now - m)
        } else {
            None
        },
        None => None,
    }
}

/// Whether one filter accepts a file: `MinSize` hides smaller files,
/// `MinAge` hides newer files, `MaxAge` hides older files, and a file of
/// unknown age is never rejected by an age filter.  `MaxResults` is no
/// per-file test and accepts everything.
pub open spec fn filter_accepts(flt: Filter, f: FileV, now: u64) -> bool {
    match flt {
        Filter::MinSize(mb) => f.size >= mb * BYTES_PER_MB,
        Filter::MinAge(days) => match age_of(f, now) {
            Some(a) => a >= days * SECONDS_PER_DAY,
            None => true,
        },
        Filter::MaxAge(days) => match age_of(f, now) {
            Some(a) => a <= days * SECONDS_PER_DAY,
            None => true,
        },
        Filter::MaxResults(_) => true,
    }
}

/// Whether every per-file filter of the chain accepts the file.
pub open spec fn accepted_by_all(chain: Seq<Filter>, f: FileV, now: u64) -> bool {
    forall|i: int| 0 <= i < chain.len() ==> filter_accepts(#[trigger] chain[i], f, now)
}

/// Holds of the files the chain's per-file filters accept.
pub open spec fn accept_pred(chain: Seq<Filter>, now: u64) -> spec_fn(FileV) -> bool {
    |f: FileV| accepted_by_all(chain, f, now)
}

/// The smallest `MaxResults` bound of the chain, if it has one.
pub open spec fn result_cap(chain: Seq<Filter>) -> Option<int>
    decreases chain.len(),
{
    if chain.len() == 0 {
        None
    } else {
        let rest = result_cap(chain.drop_first());
        match chain[0] {
            Filter::MaxResults(nn) => match rest {
                Some(c) => if nn <= c {
                    Some(nn as int)
                } else {
                    Some(c)
                },
                None => Some(nn as int),
            },
            _ => rest,
        }
    }
}

/// What the chain yields from `files`: the accepted files, in the given
/// order, truncated at the smallest result cap.
pub open spec fn spec_evaluate(files: Seq<FileV>, chain: Seq<Filter>, now: u64) -> Seq<FileV> {
    let acc = files.filter(accept_pred(chain, now));
    match result_cap(chain) {
        Some(c) => if c < acc.len() {
            acc.take(c)
        } else {
            acc
        },
        None => acc,
    }
}

/// A file whose modification time did not resolve is never rejected by an
/// age filter, whatever the threshold, whatever the current time, and
/// whatever else stands in the chain.
pub proof fn lemma_unknown_age_passes(f: FileV, days: u64, now: u64)
    requires
        f.modified is None,
    ensures
        filter_accepts(Filter::MinAge(days), f, now),
        filter_accepts(Filter::MaxAge(days), f, now),
{
}

/// The result cap is the least `MaxResults` bound of the chain, and absent
/// exactly when the chain has none.
pub proof fn lemma_result_cap(chain: Seq<Filter>)
    ensures
        match result_cap(chain) {
            Some(c) => {
                &&& 0 <= c <= u64::MAX
                &&& exists|m: int|
                    0 <= m < chain.len() && #[trigger] chain[m] == Filter::MaxResults(c as u64)
                &&& forall|m: int|
                    0 <= m < chain.len() && (#[trigger] chain[m]) is MaxResults ==> c
                        <= chain[m]->MaxResults_0
            },
            None => forall|m: int| 0 <= m < chain.len() ==> !((#[trigger] chain[m]) is MaxResults),
        },
    decreases chain.len(),
{
    if chain.len() == 0 {
    } else {
        lemma_result_cap(chain.drop_first());
        let rest = result_cap(chain.drop_first());
        match rest {
            Some(c) => {
                let wm = choose|m: int|
                    0 <= m < chain.drop_first().len() && #[trigger] chain.drop_first()[m]
                        == Filter::MaxResults(c as u64);
                assert(chain[wm + 1] == Filter::MaxResults(c as u64));
                assert forall|m: int|
                    0 <= m < chain.len() && (#[trigger] chain[m]) is MaxResults && m >= 1 implies c
                    <= chain[m]->MaxResults_0 by {
                    assert(chain.drop_first()[m - 1] == chain[m]);
                }
            },
            None => {
                assert forall|m: int| 0 <= m < chain.len() && m >= 1 implies !((
                #[trigger] chain[m]) is MaxResults) by {
                    assert(chain.drop_first()[m - 1] == chain[m]);
                }
            },
        }
    }
}

/// Evaluate the chain over `files`, in order: fresh copies of the accepted
/// files, truncated at the chain's smallest result cap.
pub fn evaluate(files: &Vec<File>, chain: &Vec<Filter>, now: u64) -> (r: Vec<File>)
    ensures
        r.deep_view() == spec_evaluate(files.deep_view(), chain@, now),
{
    let ghost dv = files.deep_view();
    let ghost cv = chain@;
    let ghost pred = accept_pred(cv, now);
    proof {
        lemma_result_cap(cv);
    }
    let mut out: Vec<File> = Vec::new();
    assert(out.deep_view() =~= dv.take(0).filter(pred)) by {
        reveal(Seq::filter);
        assert(dv.take(0) =~= Seq::<FileV>::empty());
    }
    let mut i: usize = 0;
    while i < files.len()
        invariant
            i <= dv.len(),
            dv == files.deep_view(),
            cv == chain@,
            pred == accept_pred(cv, now),
            out.deep_view() == dv.take(i as int).filter(pred),
            match result_cap(cv) {
                Some(c) => out@.len() <= c,
                None => true,
            },
        decreases dv.len() - i,
    {
        proof {
            lemma_result_cap(cv);
            assert(dv[i as int] == files@[i as int]@);
            lemma_filter_take_step(dv, pred, i as int);
        }
        let ghost fv = dv[i as int];
        let mut rejected = false;
        let mut j: usize = 0;
        while j < chain.len() && !rejected
            invariant
                j <= cv.len(),
                cv == chain@,
                i < dv.len(),
                dv == files.deep_view(),
                fv == dv[i as int],
                fv == files@[i as int]@,
                pred == accept_pred(cv, now),
                out.deep_view() == dv.take(i as int).filter(pred),
                match result_cap(cv) {
                    Some(c) => out@.len() <= c,
                    None => true,
                },
                rejected ==> !accepted_by_all(cv, fv, now),
                !rejected ==> forall|m: int|
                    0 <= m < j ==> filter_accepts(#[trigger] cv[m], fv, now),
                !rejected ==> forall|m: int|
                    0 <= m < j && (#[trigger] cv[m]) is MaxResults ==> out@.len()
                        < cv[m]->MaxResults_0,
            decreases cv.len() - j + (if rejected {
                0int
            } else {
                1int
            }),
        {
            let flt = chain[j];
            proof {
                assert(cv[j as int] == flt);
            }
            match flt {
                Filter::MinSize(mb) => {
                    if (files[i].size as u128) < (mb as u128) * (BYTES_PER_MB as u128) {
                        rejected = true;
                        proof {
                            assert(!filter_accepts(cv[j as int], fv, now));
                        }
                    }
                },
                Filter::MinAge(days) => {
                    match files[i].modified {
                        Some(m) => {
                            if m <= now {
                                let age = now - m;
                                if (age as u128) < (days as u128) * (SECONDS_PER_DAY as u128) {
                                    rejected = true;
                                    proof {
                                        assert(!filter_accepts(cv[j as int], fv, now));
                                    }
                                }
                            }
                        },
                        None => {},
                    }
                },
                Filter::MaxAge(days) => {
                    match files[i].modified {
                        Some(m) => {
                            if m <= now {
                                let age = now - m;
                                if (age as u128) > (days as u128) * (SECONDS_PER_DAY as u128) {
                                    rejected = true;
                                    proof {
                                        assert(!filter_accepts(cv[j as int], fv, now));
                                    }
                                }
                            }
                        },
                        None => {},
                    }
                },
                Filter::MaxResults(nn) => {
                    if (out.len() as u64) >= nn {
                        proof {
                            lemma_result_cap(cv);
                            let c = result_cap(cv).unwrap();
                            assert(c <= nn);
                            assert(out@.len() <= c);
                            assert(out@.len() == c);
                            let acc = dv.filter(pred);
                            assert(dv =~= dv.take(i as int) + dv.skip(i as int));
                            Seq::filter_distributes_over_add(
                                dv.take(i as int),
                                dv.skip(i as int),
                                pred,
                            );
                            assert(acc == dv.take(i as int).filter(pred) + dv.skip(
                                i as int,
                            ).filter(pred));
                            assert(out.deep_view().len() == out@.len()) by {
                                lemma_vec_deep_view(&out);
                            }
                            if c < acc.len() {
                                assert(acc.take(c) =~= out.deep_view());
                            } else {
                                assert(acc =~= out.deep_view());
                            }
                            assert(out.deep_view() == spec_evaluate(dv, cv, now));
                        }
                        return out;
                    }
                },
            }
            j = j + 1;
        }
        if !rejected {
            proof {
                assert(accepted_by_all(cv, fv, now));
                assert(pred(fv));
            }
            let ghost pre = out@;
            let x = files[i].duplicate();
            let ghost xs = x;
            out.push(x);
            proof {
                lemma_vec_deep_view(&out);
                lemma_deep_view_push(pre, out@, xs);
                assert(out.deep_view() =~= dv.take(i + 1 as int).filter(pred));
                if result_cap(cv) is Some {
                    let c = result_cap(cv).unwrap();
                    let wm = choose|m: int|
                        0 <= m < cv.len() && #[trigger] cv[m] == Filter::MaxResults(c as u64);
                    assert(cv[wm] is MaxResults);
                    assert(pre.len() < c);
                }
            }
        } else {
            proof {
                assert(!pred(fv));
                assert(out.deep_view() =~= dv.take(i + 1 as int).filter(pred));
            }
        }
        i = i + 1;
    }
    proof {
        assert(dv.take(dv.len() as int) =~= dv);
        assert(out.deep_view() == dv.filter(pred));
        if result_cap(cv) is Some {
            let c = result_cap(cv).unwrap();
            assert(out.deep_view().len() == out@.len()) by {
                lemma_vec_deep_view(&out);
            }
            assert(!(c < dv.filter(pred).len()));
        }
        assert(out.deep_view() == spec_evaluate(dv, cv, now));
    }
    out
}

} // verus!
