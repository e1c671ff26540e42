//! Merging half-open reference intervals into a minimal covering set.
//!
//! Intervals arrive in non-decreasing start order (the CIGAR decoder emits
//! them that way); an interval is folded into the running interval whenever
//! its start is at or before the running interval's end, which covers both
//! overlap and exact adjacency.

use vstd::prelude::*;

verus! {

/// The larger of two integers.
pub open spec fn max_int(a: int, b: int) -> int {
    if a >= b {
        a
    } else {
        b
    }
}

/// The views of a vector of machine-sized intervals.
pub open spec fn iv_views(s: Seq<(i64, i64)>) -> Seq<(int, int)> {
    s.map_values(|p: (i64, i64)| (p.0 as int, p.1 as int))
}

/// Starts are in non-decreasing order.
pub open spec fn starts_sorted(s: Seq<(int, int)>) -> bool {
    forall|i: int, j: int| 0 <= i < j < s.len() ==> s[i].0 <= s[j].0
}

/// Every interval is an interval: start at or before end.
pub open spec fn all_proper(s: Seq<(int, int)>) -> bool {
    forall|i: int| 0 <= i < s.len() ==> s[i].0 <= (#[trigger] s[i]).1
}

/// Each interval ends at or before the next one starts.
pub open spec fn chained(s: Seq<(int, int)>) -> bool {
    forall|i: int| 0 <= i && i + 1 < s.len() ==> (#[trigger] s[i]).1 <= s[i + 1].0
}

/// Each interval ends strictly before the next one starts: the intervals are
/// pairwise disjoint and sorted, with a gap between neighbours.
pub open spec fn separated(s: Seq<(int, int)>) -> bool {
    forall|i: int| 0 <= i && i + 1 < s.len() ==> (#[trigger] s[i]).1 < s[i + 1].0
}

/// The point `p` lies inside some interval of `s`.
pub open spec fn in_union(s: Seq<(int, int)>, p: int) -> bool {
    exists|i: int| 0 <= i < s.len() && (#[trigger] s[i]).0 <= p < s[i].1
}

/// The merged intervals that follow from a running interval `[lo, hi)` and
/// the remaining input `s`: the next interval is folded into the running one
/// whenever it starts at or before `hi`, otherwise the running interval is
/// emitted and the next one becomes the running interval.
pub open spec fn merge_acc(s: Seq<(int, int)>, lo: int, hi: int) -> Seq<(int, int)>
    decreases s.len(),
{
    if s.len() == 0 {
        seq![(lo, hi)]
    } else if s[0].0 <= hi {
        merge_acc(s.skip(1), lo, max_int(hi, s[0].1))
    } else {
        seq![(lo, hi)] + merge_acc(s.skip(1), s[0].0, s[0].1)
    }
}

/// The merged form of an interval sequence: whenever an interval starts at or
/// before the end of the running interval, the two collapse into one.
pub open spec fn merge_spec(s: Seq<(int, int)>) -> Seq<(int, int)> {
    if s.len() == 0 {
        Seq::empty()
    } else {
        merge_acc(s.skip(1), s[0].0, s[0].1)
    }
}

/// Collapses intervals given in non-decreasing start order into the minimal
/// set of non-overlapping intervals covering the same points.
pub fn merge_range(ivs: &Vec<(i64, i64)>) -> (merged: Vec<(i64, i64)>)
    ensures
        iv_views(merged@) == merge_spec(iv_views(ivs@)),
{
    let ghost whole: Seq<(int, int)> = iv_views(ivs@);
    let mut merged: Vec<(i64, i64)> = Vec::new();
    if ivs.len() == 0 {
        assert(iv_views(merged@) =~= merge_spec(whole));
        return merged;
    }

    let mut start: i64 = ivs[0].0;
    let mut end: i64 = ivs[0].1;
    let mut i: usize = 1;

    assert(iv_views(ivs@.skip(1)) =~= whole.skip(1));

    while i < ivs.len()
        invariant
            1 <= i <= ivs@.len(),
            merge_spec(whole) == iv_views(merged@) + merge_acc(
                iv_views(ivs@.skip(i as int)),
                start as int,
                end as int,
            ),
        decreases ivs.len() - i,
    {
        let ghost rem = iv_views(ivs@.skip(i as int));
        assert(rem[0] == (ivs@[i as int].0 as int, ivs@[i as int].1 as int));
        assert(rem.skip(1) =~= iv_views(ivs@.skip(i as int + 1)));
        let (s, e) = ivs[i];
        if s <= end {
            if e > end {
                end = e;
            }
        } else {
            merged.push((start, end));
            start = s;
            end = e;
            assert(iv_views(merged@) =~= iv_views(merged@.drop_last()) + seq![(
                iv_views(merged@).last().0,
                iv_views(merged@).last().1,
            )]);
        }
        i += 1;
    }

    assert(iv_views(ivs@.skip(i as int)).len() == 0);
    merged.push((start, end));
    assert(iv_views(merged@) =~= iv_views(merged@.drop_last()) + seq![(start as int, end as int)]);
    merged
}

/// Structure of the merged intervals: starting from a proper running interval
/// `[lo, hi)` and remaining intervals that are sorted, proper, and start at
/// or after `lo`, the result consists of proper intervals separated by gaps
/// (hence pairwise non-overlapping and sorted ascending by start), starts at
/// `lo`, and, when the whole input is chained, ends at the input's last end.
pub proof fn lemma_merge_acc_structure(s: Seq<(int, int)>, lo: int, hi: int)
    requires
        starts_sorted(s),
        all_proper(s),
        lo <= hi,
        forall|k: int| 0 <= k < s.len() ==> (#[trigger] s[k]).0 >= lo,
    ensures
        merge_acc(s, lo, hi).len() >= 1,
        all_proper(merge_acc(s, lo, hi)),
        separated(merge_acc(s, lo, hi)),
        merge_acc(s, lo, hi)[0].0 == lo,
        forall|k: int|
            0 <= k < merge_acc(s, lo, hi).len() ==> (#[trigger] merge_acc(s, lo, hi)[k]).0 >= lo,
        hi <= merge_acc(s, lo, hi).last().1,
        forall|k: int|
            0 <= k < merge_acc(s, lo, hi).len() ==> (#[trigger] merge_acc(s, lo, hi)[k]).1
                <= merge_acc(s, lo, hi).last().1,
        chained(seq![(lo, hi)] + s) && s.len() > 0 ==> merge_acc(s, lo, hi).last().1
            == s.last().1,
    decreases s.len(),
{
    let out = merge_acc(s, lo, hi);
    let whole = seq![(lo, hi)] + s;
    if s.len() == 0 {
    } else {
        let rest = s.skip(1);
        assert(starts_sorted(rest) && all_proper(rest)) by {
            assert forall|i: int, j: int| 0 <= i < j < rest.len() implies rest[i].0
                <= rest[j].0 by {
                assert(rest[i] == s[i + 1]);
                assert(rest[j] == s[j + 1]);
            }
            assert forall|i: int| 0 <= i < rest.len() implies rest[i].0
                <= (#[trigger] rest[i]).1 by {
                assert(rest[i] == s[i + 1]);
            }
        }
        assert(forall|k: int| 0 <= k < rest.len() ==> (#[trigger] rest[k]).0 == s[k + 1].0);
        if s[0].0 <= hi {
            lemma_merge_acc_structure(rest, lo, max_int(hi, s[0].1));
            if rest.len() == 0 {
                assert(merge_acc(rest, lo, max_int(hi, s[0].1)) =~= seq![(
                    lo,
                    max_int(hi, s[0].1),
                )]);
                if chained(whole) {
                    assert(whole[0].1 <= whole[1].0);
                    assert(whole[1] == s[0]);
                    assert(hi <= s[0].0 <= s[0].1);
                }
            }
            if chained(whole) && rest.len() > 0 {
                let inner = seq![(lo, max_int(hi, s[0].1))] + rest;
                assert(chained(inner)) by {
                    assert forall|i: int| 0 <= i && i + 1 < inner.len() implies (
                    #[trigger] inner[i]).1 <= inner[i + 1].0 by {
                        if i == 0 {
                            assert(inner[1] == s[1]);
                            assert(whole[1] == s[0] && whole[2] == s[1]);
                            assert(s[0].1 <= s[1].0);
                            assert(whole[0].1 <= whole[1].0);
                            assert(s[0].0 <= s[0].1);
                        } else {
                            assert(inner[i] == s[i]);
                            assert(inner[i + 1] == s[i + 1]);
                            assert(whole[i + 1] == s[i] && whole[i + 2] == s[i + 1]);
                        }
                    }
                }
                assert(rest.last() == s.last());
            }
        } else {
            lemma_merge_acc_structure(rest, s[0].0, s[0].1);
            let tail = merge_acc(rest, s[0].0, s[0].1);
            if rest.len() == 0 {
                assert(tail =~= seq![(s[0].0, s[0].1)]);
            }
            assert(out == seq![(lo, hi)] + tail);
            assert(separated(out)) by {
                assert forall|i: int| 0 <= i && i + 1 < out.len() implies (#[trigger] out[i]).1
                    < out[i + 1].0 by {
                    assert(out[i + 1] == tail[i]);
                    if i == 0 {
                        assert(tail[0].0 == s[0].0);
                    } else {
                        assert(out[i] == tail[i - 1]);
                    }
                }
            }
            assert(all_proper(out)) by {
                assert forall|i: int| 0 <= i < out.len() implies out[i].0
                    <= (#[trigger] out[i]).1 by {
                    if i > 0 {
                        assert(out[i] == tail[i - 1]);
                    }
                }
            }
            assert forall|k: int| 0 <= k < out.len() implies (#[trigger] out[k]).0 >= lo by {
                if k > 0 {
                    assert(out[k] == tail[k - 1]);
                    assert(tail[k - 1].0 >= s[0].0);
                }
            }
            assert(out.last() == tail.last());
            assert forall|k: int| 0 <= k < out.len() implies (#[trigger] out[k]).1
                <= out.last().1 by {
                if k > 0 {
                    assert(out[k] == tail[k - 1]);
                    assert(tail[k - 1].1 <= tail.last().1);
                } else {
                    assert(hi <= s[0].0 <= s[0].1 <= tail.last().1);
                }
            }
            if chained(whole) && rest.len() > 0 {
                let inner = seq![s[0]] + rest;
                assert(chained(inner)) by {
                    assert forall|i: int| 0 <= i && i + 1 < inner.len() implies (
                    #[trigger] inner[i]).1 <= inner[i + 1].0 by {
                        assert(inner[i + 1] == s[i + 1]);
                        if i > 0 {
                            assert(inner[i] == s[i]);
                        }
                        assert(whole[i + 1] == s[i] && whole[i + 2] == s[i + 1]);
                    }
                }
                assert(rest.last() == s.last());
            }
        }
    }
}

/// Merging preserves the point-set union: a reference position lies inside
/// some merged interval exactly when it lies inside the running interval
/// `[lo, hi)` or inside some remaining input interval.
pub proof fn lemma_merge_acc_union(s: Seq<(int, int)>, lo: int, hi: int, p: int)
    requires
        starts_sorted(s),
        all_proper(s),
        lo <= hi,
        forall|k: int| 0 <= k < s.len() ==> (#[trigger] s[k]).0 >= lo,
    ensures
        in_union(merge_acc(s, lo, hi), p) <==> (lo <= p < hi || in_union(s, p)),
    decreases s.len(),
{
    let out = merge_acc(s, lo, hi);
    if s.len() == 0 {
        if in_union(out, p) {
            let i = choose|i: int| 0 <= i < out.len() && (#[trigger] out[i]).0 <= p < out[i].1;
            assert(i == 0);
        }
        if lo <= p < hi {
            assert(out[0].0 <= p < out[0].1);
        }
    } else {
        let rest = s.skip(1);
        assert(starts_sorted(rest) && all_proper(rest)) by {
            assert forall|i: int, j: int| 0 <= i < j < rest.len() implies rest[i].0
                <= rest[j].0 by {
                assert(rest[i] == s[i + 1]);
                assert(rest[j] == s[j + 1]);
            }
            assert forall|i: int| 0 <= i < rest.len() implies rest[i].0
                <= (#[trigger] rest[i]).1 by {
                assert(rest[i] == s[i + 1]);
            }
        }
        assert(forall|k: int| 0 <= k < rest.len() ==> (#[trigger] rest[k]).0 == s[k + 1].0);
        if s[0].0 <= hi {
            lemma_merge_acc_union(rest, lo, max_int(hi, s[0].1), p);
            // The widened running interval covers exactly [lo, hi) plus s[0].
            assert((lo <= p < max_int(hi, s[0].1)) <==> (lo <= p < hi || (s[0].0 <= p
                < s[0].1)));
            assert(in_union(s, p) <==> (s[0].0 <= p < s[0].1 || in_union(rest, p))) by {
                lemma_in_union_unfold(s, p);
            }
        } else {
            lemma_merge_acc_union(rest, s[0].0, s[0].1, p);
            let tail = merge_acc(rest, s[0].0, s[0].1);
            assert(out == seq![(lo, hi)] + tail);
            assert(in_union(out, p) <==> (lo <= p < hi || in_union(tail, p))) by {
                lemma_in_union_unfold(out, p);
                assert(out.skip(1) =~= tail);
            }
            assert(in_union(s, p) <==> (s[0].0 <= p < s[0].1 || in_union(rest, p))) by {
                lemma_in_union_unfold(s, p);
            }
        }
    }
}

/// A point lies in the union of a non-empty interval sequence exactly when it
/// lies in the head interval or in the union of the tail.
proof fn lemma_in_union_unfold(s: Seq<(int, int)>, p: int)
    requires
        s.len() > 0,
    ensures
        in_union(s, p) <==> (s[0].0 <= p < s[0].1 || in_union(s.skip(1), p)),
{
    let rest = s.skip(1);
    if in_union(s, p) {
        let i = choose|i: int| 0 <= i < s.len() && (#[trigger] s[i]).0 <= p < s[i].1;
        if i > 0 {
            assert(rest[i - 1] == s[i]);
            assert(rest[i - 1].0 <= p < rest[i - 1].1);
        }
    }
    if in_union(rest, p) {
        let i = choose|i: int| 0 <= i < rest.len() && (#[trigger] rest[i]).0 <= p < rest[i].1;
        assert(s[i + 1] == rest[i]);
        assert(s[i + 1].0 <= p < s[i + 1].1);
    }
    if s[0].0 <= p < s[0].1 {
        assert(in_union(s, p));
    }
}

/// Merging intervals that arrive sorted by start and proper yields proper
/// intervals separated by gaps -- pairwise non-overlapping and sorted
/// ascending by start -- with exactly the same point-set union; a non-empty
/// input keeps its first start, and a chained input keeps its last end.
pub proof fn lemma_merge_spec_props(s: Seq<(int, int)>)
    requires
        starts_sorted(s),
        all_proper(s),
        s.len() > 0,
    ensures
        merge_spec(s).len() >= 1,
        all_proper(merge_spec(s)),
        separated(merge_spec(s)),
        forall|p: int| in_union(merge_spec(s), p) <==> in_union(s, p),
        merge_spec(s)[0].0 == s[0].0,
        forall|k: int|
            0 <= k < merge_spec(s).len() ==> (#[trigger] merge_spec(s)[k]).0 >= s[0].0,
        merge_spec(s).last().1 >= s[0].1,
        forall|k: int|
            0 <= k < merge_spec(s).len() ==> (#[trigger] merge_spec(s)[k]).1
                <= merge_spec(s).last().1,
        chained(s) ==> merge_spec(s).last().1 == s.last().1,
{
    let rest = s.skip(1);
    assert(starts_sorted(rest) && all_proper(rest)) by {
        assert forall|i: int, j: int| 0 <= i < j < rest.len() implies rest[i].0 <= rest[j].0 by {
            assert(rest[i] == s[i + 1]);
            assert(rest[j] == s[j + 1]);
        }
        assert forall|i: int| 0 <= i < rest.len() implies rest[i].0 <= (#[trigger] rest[i]).1 by {
            assert(rest[i] == s[i + 1]);
        }
    }
    assert(forall|k: int| 0 <= k < rest.len() ==> (#[trigger] rest[k]).0 == s[k + 1].0);
    lemma_merge_acc_structure(rest, s[0].0, s[0].1);
    assert forall|p: int| in_union(merge_spec(s), p) <==> in_union(s, p) by {
        lemma_merge_acc_union(rest, s[0].0, s[0].1, p);
        lemma_in_union_unfold(s, p);
    }
    if chained(s) && rest.len() > 0 {
        assert(chained(seq![(s[0].0, s[0].1)] + rest)) by {
            let w = seq![(s[0].0, s[0].1)] + rest;
            assert(w =~= s);
        }
        assert(rest.last() == s.last());
    }
}

} // verus!
