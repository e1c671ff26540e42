//! Choosing the best candidate region for each ambiguous read.
//!
//! Every candidate row of a read is scored by how many reference bases of the
//! read's footprint fall inside that row's region; the highest score wins and
//! ties go to the earliest row in the group's original order (a stable
//! argmax).

use vstd::prelude::*;

use crate::cigar::{cigar_ok, footprint};
use crate::coverage::{calc_coverage, coverage_sum, span_ok};
use crate::partition::{id_match, lemma_filter_push};
use crate::records::{bytes_eq, clone_bytes, row_views, CandidateMatch, MatchView, RelocError};

verus! {

/// The coverage score of one candidate row: the reference bases of the
/// read's footprint that lie inside the row's own region.
pub open spec fn score_of(m: MatchView) -> int {
    coverage_sum(footprint(m.cigar, m.align_start), m.region_start, m.region_end)
}

/// The row can be scored: its CIGAR decodes and the decoded footprint ends
/// exactly at the reported alignment end.
pub open spec fn row_ok(m: MatchView) -> bool {
    cigar_ok(m.cigar, m.align_start) && span_ok(m.cigar, m.align_start, m.align_end)
}

/// The error a row that cannot be scored produces.
pub open spec fn row_err(m: MatchView) -> RelocError {
    if !cigar_ok(m.cigar, m.align_start) {
        RelocError::ParseError
    } else {
        RelocError::IntegrityError
    }
}

/// The machine bound under which a row can be scored at all.
pub open spec fn span_fits(m: MatchView) -> bool {
    m.align_end - m.align_start <= i64::MAX
}

/// The index of the highest-scoring row, the earliest on ties.
pub open spec fn argmax_idx(ms: Seq<MatchView>) -> int
    decreases ms.len(),
{
    if ms.len() <= 1 {
        0
    } else {
        let r = argmax_idx(ms.drop_last());
        if score_of(ms.last()) > score_of(ms[r]) {
            ms.len() - 1
        } else {
            r
        }
    }
}

/// All the rows of `ms` that carry the read identifier `id`, in input order.
pub open spec fn group_of(ms: Seq<MatchView>, id: Seq<u8>) -> Seq<MatchView> {
    ms.filter(id_match(id))
}

/// The winning row of a group.
pub open spec fn best_of(g: Seq<MatchView>) -> MatchView {
    g[argmax_idx(g)]
}

/// Some earlier row carries the same read identifier.
pub open spec fn contains_id(ms: Seq<MatchView>, id: Seq<u8>) -> bool {
    exists|j: int| 0 <= j < ms.len() && (#[trigger] ms[j]).read_id == id
}

/// The distinct read identifiers of `ms`, in first-seen order.
pub open spec fn distinct_ids(ms: Seq<MatchView>) -> Seq<Seq<u8>>
    decreases ms.len(),
{
    if ms.len() == 0 {
        Seq::empty()
    } else {
        let prefix = distinct_ids(ms.drop_last());
        if contains_id(ms.drop_last(), ms.last().read_id) {
            prefix
        } else {
            prefix.push(ms.last().read_id)
        }
    }
}

/// The chosen index stays inside the group.
pub proof fn lemma_argmax_bounds(ms: Seq<MatchView>)
    requires
        ms.len() >= 1,
    ensures
        0 <= argmax_idx(ms) < ms.len(),
    decreases ms.len(),
{
    if ms.len() > 1 {
        lemma_argmax_bounds(ms.drop_last());
    }
}

/// The selection is a stable argmax: the chosen row's score is maximal, and
/// every earlier row scores strictly less, so among tied rows the earliest
/// one in the group's original order wins.
pub proof fn lemma_argmax_stable(ms: Seq<MatchView>)
    requires
        ms.len() >= 1,
    ensures
        0 <= argmax_idx(ms) < ms.len(),
        forall|j: int| 0 <= j < ms.len() ==> score_of(#[trigger] ms[j]) <= score_of(
            ms[argmax_idx(ms)],
        ),
        forall|j: int| 0 <= j < argmax_idx(ms) ==> score_of(#[trigger] ms[j]) < score_of(
            ms[argmax_idx(ms)],
        ),
    decreases ms.len(),
{
    lemma_argmax_bounds(ms);
    if ms.len() > 1 {
        lemma_argmax_stable(ms.drop_last());
        assert(forall|j: int| 0 <= j < ms.len() - 1 ==> ms[j] == ms.drop_last()[j]);
    }
}

/// The choice for a read depends only on that read's rows in their original
/// relative order: two inputs whose rows for `id` agree, however the other
/// reads' rows around them are arranged, give the identical chosen row.
pub proof fn lemma_selection_order_invariant(ms1: Seq<MatchView>, ms2: Seq<MatchView>, id: Seq<u8>)
    requires
        group_of(ms1, id) == group_of(ms2, id),
    ensures
        best_of(group_of(ms1, id)) == best_of(group_of(ms2, id)),
{
}

/// Scores every row of one group against its own region and returns the
/// winner: the row with the highest coverage, the earliest on ties.
pub fn select_best(group: &Vec<CandidateMatch>) -> (r: Result<CandidateMatch, RelocError>)
    requires
        group@.len() >= 1,
        forall|k: int| 0 <= k < group@.len() ==> span_fits(#[trigger] row_views(group@)[k]),
    ensures
        r is Ok <==> forall|k: int|
            0 <= k < group@.len() ==> row_ok(#[trigger] row_views(group@)[k]),
        r matches Ok(v) ==> v@ == best_of(row_views(group@)),
        r matches Err(e) ==> exists|k: int|
            0 <= k < group@.len() && !row_ok(#[trigger] row_views(group@)[k]) && (forall|l: int|
                0 <= l < k ==> row_ok(#[trigger] row_views(group@)[l])) && e == row_err(
                row_views(group@)[k],
            ),
{
    let ghost vm = row_views(group@);
    let mut best_idx: usize = 0;
    let mut best_score: i64 = -1;
    let mut k: usize = 0;

    while k < group.len()
        invariant
            0 <= k <= group@.len(),
            group@.len() >= 1,
            vm == row_views(group@),
            forall|l: int| 0 <= l < group@.len() ==> span_fits(#[trigger] vm[l]),
            forall|l: int| 0 <= l < k ==> row_ok(#[trigger] vm[l]),
            k == 0 ==> best_idx == 0 && best_score == -1,
            k > 0 ==> 0 <= best_idx < k && best_idx as int == argmax_idx(vm.take(k as int))
                && best_score == score_of(vm[best_idx as int]) && best_score >= 0,
        decreases group@.len() - k,
    {
        let row = &group[k];
        assert(vm[k as int] == row@);
        let score = match calc_coverage(
            row.align_start,
            row.align_end,
            row.region_start,
            row.region_end,
            &row.cigar,
        ) {
            Ok(v) => v,
            Err(e) => {
                assert(!row_ok(vm[k as int]) && e == row_err(vm[k as int]));
                return Err(e);
            },
        };
        assert(row_ok(vm[k as int]));
        assert(score == score_of(vm[k as int]));
        proof {
            let g = vm.take(k as int + 1);
            assert(g.drop_last() =~= vm.take(k as int));
            assert(g.last() == vm[k as int]);
            if k > 0 {
                lemma_argmax_bounds(vm.take(k as int));
                assert(forall|l: int| 0 <= l <= k ==> g[l] == vm[l]);
            }
        }
        if score > best_score {
            best_idx = k;
            best_score = score;
        }
        k += 1;
    }
    assert(vm.take(vm.len() as int) =~= vm);
    Ok(group[best_idx].clone())
}

/// Resolves every ambiguous read: groups the rows by read identifier in
/// first-seen order and keeps, for each read, the highest-scoring row, the
/// earliest on ties.  The output holds exactly one row per distinct read.
pub fn resolve_ambiguous(rows: &Vec<CandidateMatch>) -> (r: Result<
    Vec<CandidateMatch>,
    RelocError,
>)
    requires
        forall|k: int| 0 <= k < rows@.len() ==> span_fits(#[trigger] row_views(rows@)[k]),
    ensures
        r is Ok <==> forall|k: int| 0 <= k < rows@.len() ==> row_ok(#[trigger] row_views(rows@)[k]),
        r matches Ok(v) ==> row_views(v@).len() == distinct_ids(row_views(rows@)).len(),
        r matches Ok(v) ==> forall|k: int|
            0 <= k < v@.len() ==> #[trigger] row_views(v@)[k] == best_of(
                group_of(row_views(rows@), distinct_ids(row_views(rows@))[k]),
            ),
        r matches Err(e) ==> exists|k: int|
            0 <= k < rows@.len() && !row_ok(#[trigger] row_views(rows@)[k]) && e == row_err(
                row_views(rows@)[k],
            ),
{
    let ghost vm = row_views(rows@);
    let mut out: Vec<CandidateMatch> = Vec::new();
    let mut i: usize = 0;

    assert(distinct_ids(vm.take(0)) =~= Seq::<Seq<u8>>::empty());
    assert(row_views(out@) =~= Seq::<MatchView>::empty());

    while i < rows.len()
        invariant
            0 <= i <= rows@.len(),
            vm == row_views(rows@),
            forall|l: int| 0 <= l < rows@.len() ==> span_fits(#[trigger] vm[l]),
            forall|l: int|
                0 <= l < rows@.len() && contains_id(vm.take(i as int), (#[trigger] vm[l]).read_id)
                    ==> row_ok(vm[l]),
            row_views(out@).len() == distinct_ids(vm.take(i as int)).len(),
            forall|k: int|
                0 <= k < out@.len() ==> #[trigger] row_views(out@)[k] == best_of(
                    group_of(vm, distinct_ids(vm.take(i as int))[k]),
                ),
        decreases rows@.len() - i,
    {
        let ghost prefix = vm.take(i as int);
        proof {
            assert(vm.take(i as int + 1).drop_last() =~= prefix);
            assert(vm.take(i as int + 1).last() == vm[i as int]);
        }

        // Is this the first row of its read?
        let mut seen = false;
        let mut j: usize = 0;
        while j < i
            invariant
                0 <= j <= i < rows@.len(),
                vm == row_views(rows@),
                seen <==> contains_id(vm.take(j as int), vm[i as int].read_id),
            decreases i - j,
        {
            proof {
                assert(vm.take(j as int + 1).drop_last() =~= vm.take(j as int));
                assert(forall|l: int| 0 <= l <= j ==> vm.take(j as int + 1)[l] == vm[l]);
            }
            if bytes_eq(&rows[j].read_id, &rows[i].read_id) {
                seen = true;
            }
            proof {
                if seen && !contains_id(vm.take(j as int), vm[i as int].read_id) {
                    assert(vm.take(j as int + 1)[j as int].read_id == vm[i as int].read_id);
                }
                if contains_id(vm.take(j as int), vm[i as int].read_id) {
                    let w = choose|l: int|
                        0 <= l < j && (#[trigger] vm.take(j as int)[l]).read_id
                            == vm[i as int].read_id;
                    assert(vm.take(j as int + 1)[w].read_id == vm[i as int].read_id);
                }
            }
            j += 1;
        }
        assert(seen <==> contains_id(prefix, vm[i as int].read_id));

        if !seen {
            // Gather the whole group of this read, in input order.
            let id = clone_bytes(&rows[i].read_id);
            let mut group: Vec<CandidateMatch> = Vec::new();
            let mut l: usize = 0;
            proof {
                assert(row_views(group@) =~= Seq::<MatchView>::empty());
                assert(row_views(rows@.take(0)) =~= Seq::<MatchView>::empty());
                assert(Seq::<MatchView>::empty().filter(id_match(id@)) =~= Seq::<
                    MatchView,
                >::empty()) by {
                    reveal(Seq::filter);
                }
            }
            while l < rows.len()
                invariant
                    0 <= l <= rows@.len(),
                    vm == row_views(rows@),
                    id@ == vm[i as int].read_id,
                    i < rows@.len(),
                    forall|k: int| 0 <= k < rows@.len() ==> span_fits(#[trigger] vm[k]),
                    row_views(group@) == row_views(rows@.take(l as int)).filter(id_match(id@)),
                    forall|k: int|
                        0 <= k < group@.len() ==> exists|w: int|
                            0 <= w < rows@.len() && #[trigger] row_views(group@)[k] == vm[w],
                decreases rows@.len() - l,
            {
                let ghost gprefix = row_views(rows@.take(l as int));
                proof {
                    assert(row_views(rows@.take(l as int + 1)) =~= gprefix.push(vm[l as int]));
                    lemma_filter_push(gprefix, vm[l as int], id_match(id@));
                }
                if bytes_eq(&rows[l].read_id, &id) {
                    let ghost old_group = row_views(group@);
                    group.push(rows[l].clone());
                    proof {
                        assert(row_views(group@) =~= old_group.push(vm[l as int]));
                        assert forall|k: int| 0 <= k < group@.len() implies exists|w: int|
                            0 <= w < rows@.len() && #[trigger] row_views(group@)[k] == vm[w] by {
                            if k < old_group.len() {
                                assert(row_views(group@)[k] == old_group[k]);
                            } else {
                                assert(row_views(group@)[k] == vm[l as int]);
                            }
                        }
                    }
                }
                l += 1;
            }
            proof {
                assert(rows@.take(rows@.len() as int) =~= rows@);
                assert(row_views(group@) == group_of(vm, id@));
                vm.lemma_filter_contains(id_match(id@), i as int);
                assert(group_of(vm, id@).contains(vm[i as int]));
                assert(group@.len() >= 1);
            }

            let chosen = match select_best(&group) {
                Ok(v) => v,
                Err(e) => {
                    proof {
                        let g = row_views(group@);
                        let k = choose|k: int|
                            0 <= k < g.len() && !row_ok(#[trigger] g[k]) && (forall|l2: int|
                                0 <= l2 < k ==> row_ok(#[trigger] g[l2])) && e == row_err(g[k]);
                        let w = choose|w: int| 0 <= w < rows@.len() && #[trigger] g[k] == vm[w];
                        assert(!row_ok(vm[w]) && e == row_err(vm[w]));
                    }
                    return Err(e);
                },
            };

            let ghost old_out = row_views(out@);
            out.push(chosen);
            proof {
                assert(row_views(out@) =~= old_out.push(chosen@));
                assert(distinct_ids(vm.take(i as int + 1)) == distinct_ids(prefix).push(
                    vm[i as int].read_id,
                ));
                assert forall|k: int| 0 <= k < out@.len() implies #[trigger] row_views(out@)[k]
                    == best_of(group_of(vm, distinct_ids(vm.take(i as int + 1))[k])) by {
                    if k < old_out.len() {
                        assert(row_views(out@)[k] == old_out[k]);
                        assert(distinct_ids(vm.take(i as int + 1))[k] == distinct_ids(prefix)[k]);
                    } else {
                        assert(row_views(out@)[k] == chosen@);
                        assert(distinct_ids(vm.take(i as int + 1))[k] == vm[i as int].read_id);
                    }
                }
                // Every row of this read is now known to score.
                assert forall|l2: int|
                    0 <= l2 < rows@.len() && contains_id(
                        vm.take(i as int + 1),
                        (#[trigger] vm[l2]).read_id,
                    ) implies row_ok(vm[l2]) by {
                    if !contains_id(prefix, vm[l2].read_id) {
                        assert(vm[l2].read_id == vm[i as int].read_id);
                        vm.lemma_filter_contains(id_match(id@), l2);
                        let g = group_of(vm, id@);
                        assert(g.contains(vm[l2]));
                        let w = choose|w: int| 0 <= w < g.len() && g[w] == vm[l2];
                        assert(row_ok(g[w]));
                    }
                }
            }
        } else {
            proof {
                assert(distinct_ids(vm.take(i as int + 1)) == distinct_ids(prefix));
                assert forall|l2: int|
                    0 <= l2 < rows@.len() && contains_id(
                        vm.take(i as int + 1),
                        (#[trigger] vm[l2]).read_id,
                    ) implies row_ok(vm[l2]) by {
                    if !contains_id(prefix, vm[l2].read_id) {
                        let w = choose|w: int|
                            0 <= w <= i && (#[trigger] vm.take(i as int + 1)[w]).read_id
                                == vm[l2].read_id;
                        assert(vm[i as int].read_id == vm[l2].read_id);
                        let w2 = choose|w2: int|
                            0 <= w2 < i && (#[trigger] prefix[w2]).read_id
                                == vm[i as int].read_id;
                        assert(prefix[w2].read_id == vm[l2].read_id);
                    }
                }
            }
        }
        i += 1;
    }
    proof {
        assert(vm.take(rows@.len() as int) =~= vm);
        assert forall|k: int| 0 <= k < rows@.len() implies row_ok(#[trigger] vm[k]) by {
            assert(vm.take(rows@.len() as int)[k].read_id == vm[k].read_id);
            assert(contains_id(vm.take(rows@.len() as int), vm[k].read_id));
        }
    }
    Ok(out)
}

} // verus!
