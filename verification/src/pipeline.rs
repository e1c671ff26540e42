//! The whole resolution pipeline, one pure pass over the candidate rows.
//!
//! Partition the rows into unambiguous and ambiguous reads, score and resolve
//! every ambiguous read, key the surviving rows by chromosome rank, and sort
//! them deterministically; the rank is dropped again before emission.  Every
//! failure is fatal: either the complete, correctly sorted table comes back,
//! or the first error does.

use vstd::prelude::*;

use crate::assemble::{
    chrom_rank, rank_of, ranked_views, sort_rows, sort_spec, RankedRow, RankedView,
};
use crate::partition::{ambiguous_of, partition, unambiguous_of};
use crate::records::{row_views, CandidateMatch, MatchView, RelocError};
use crate::select::{
    best_of, distinct_ids, group_of, resolve_ambiguous, row_err, row_ok, span_fits,
};

verus! {

/// One selected row per distinct ambiguous read, in first-seen order.
pub open spec fn selections_of(am: Seq<MatchView>) -> Seq<MatchView> {
    Seq::new(distinct_ids(am).len(), |k: int| best_of(group_of(am, distinct_ids(am)[k])))
}

/// The rows the final table is made of: the unambiguous rows joined with the
/// selected rows, before ordering.
pub open spec fn combined_of(ms: Seq<MatchView>) -> Seq<MatchView> {
    unambiguous_of(ms) + selections_of(ambiguous_of(ms))
}

/// Every final row's chromosome name has a numeric rank.
pub open spec fn all_resolvable(ms: Seq<MatchView>) -> bool {
    forall|k: int| 0 <= k < ms.len() ==> rank_of((#[trigger] ms[k]).chrom) is Some
}

/// The rank a resolvable chromosome name carries.
pub open spec fn rank_val(m: MatchView) -> int {
    match rank_of(m.chrom) {
        Some(v) => v,
        None => 0,
    }
}

/// The rows keyed by their chromosome rank.
pub open spec fn keyed(ms: Seq<MatchView>) -> Seq<RankedView> {
    ms.map_values(|m: MatchView| RankedView { rank: rank_val(m), row: m })
}

/// The final table: the combined rows sorted by chromosome rank and
/// coordinates, with the derived rank dropped again.
pub open spec fn relocated(ms: Seq<MatchView>) -> Seq<MatchView> {
    sort_spec(keyed(combined_of(ms))).map_values(|x: RankedView| x.row)
}

/// Resolves all read-to-region ambiguity in one pass: unambiguous rows pass
/// through; for each ambiguous read exactly the highest-scoring candidate row
/// survives, the earliest on ties; the surviving rows come back sorted by
/// chromosome rank, alignment start, alignment end, region start and region
/// end.  Fails with the scoring error of a row that cannot be scored, or with
/// [`RelocError::ParseError`] when a surviving row's chromosome name has no
/// rank; nothing is returned then.
#[verifier::loop_isolation(false)]
pub fn relocate(rows: &Vec<CandidateMatch>) -> (r: Result<Vec<CandidateMatch>, RelocError>)
    requires
        forall|k: int| 0 <= k < rows@.len() ==> span_fits(#[trigger] row_views(rows@)[k]),
    ensures
        r is Ok <==> (forall|k: int|
            0 <= k < ambiguous_of(row_views(rows@)).len() ==> row_ok(
                #[trigger] ambiguous_of(row_views(rows@))[k],
            )) && all_resolvable(combined_of(row_views(rows@))),
        r matches Ok(v) ==> row_views(v@) == relocated(row_views(rows@)),
        r matches Err(e) ==> if exists|k: int|
            0 <= k < ambiguous_of(row_views(rows@)).len() && !row_ok(
                #[trigger] ambiguous_of(row_views(rows@))[k],
            ) {
            exists|k: int|
                0 <= k < ambiguous_of(row_views(rows@)).len() && !row_ok(
                    #[trigger] ambiguous_of(row_views(rows@))[k],
                ) && e == row_err(ambiguous_of(row_views(rows@))[k])
        } else {
            e == RelocError::ParseError
        },
{
    let ghost ms = row_views(rows@);
    let ghost am = ambiguous_of(ms);

    let (uniq, ambi) = partition(rows);
    proof {
        assert forall|k: int| 0 <= k < ambi@.len() implies span_fits(
            #[trigger] row_views(ambi@)[k],
        ) by {
            ms.lemma_filter_pred(crate::partition::keep_repeated(ms), k);
            lemma_filter_element_of(ms, crate::partition::keep_repeated(ms), k);
        }
    }
    let picked = match resolve_ambiguous(&ambi) {
        Ok(v) => v,
        Err(e) => {
            return Err(e);
        },
    };
    proof {
        assert(row_views(picked@) =~= selections_of(am));
    }

    // Join the two groups: unambiguous rows first, selected rows after, as
    // the combined order before sorting.
    let mut combined: Vec<CandidateMatch> = Vec::new();
    let mut i: usize = 0;
    assert(row_views(combined@) =~= row_views(uniq@).take(0));
    while i < uniq.len()
        invariant
            0 <= i <= uniq@.len(),
            row_views(combined@) == row_views(uniq@).take(i as int),
        decreases uniq@.len() - i,
    {
        let ghost before = row_views(combined@);
        combined.push(uniq[i].clone());
        assert(row_views(combined@) =~= before.push(row_views(uniq@)[i as int]));
        assert(row_views(combined@) =~= row_views(uniq@).take(i as int + 1));
        i += 1;
    }
    assert(row_views(uniq@).take(uniq@.len() as int) =~= row_views(uniq@));
    let mut j: usize = 0;
    while j < picked.len()
        invariant
            0 <= j <= picked@.len(),
            row_views(combined@) == row_views(uniq@) + row_views(picked@).take(j as int),
        decreases picked@.len() - j,
    {
        let ghost before = row_views(combined@);
        combined.push(picked[j].clone());
        assert(row_views(combined@) =~= before.push(row_views(picked@)[j as int]));
        assert(row_views(combined@) =~= row_views(uniq@) + row_views(picked@).take(j as int + 1));
        j += 1;
    }
    proof {
        assert(row_views(picked@).take(picked@.len() as int) =~= row_views(picked@));
        assert(row_views(combined@) =~= combined_of(ms));
    }
    let ghost cv = row_views(combined@);

    // Key every surviving row by its chromosome rank.
    let mut with_keys: Vec<RankedRow> = Vec::new();
    let mut k: usize = 0;
    assert(ranked_views(with_keys@) =~= keyed(cv.take(0)));
    while k < combined.len()
        invariant
            0 <= k <= combined@.len(),
            cv == row_views(combined@),
            cv == combined_of(row_views(rows@)),
            ranked_views(with_keys@) == keyed(cv.take(k as int)),
            forall|l: int| 0 <= l < k ==> rank_of((#[trigger] cv[l]).chrom) is Some,
        decreases combined@.len() - k,
    {
        let rank = match chrom_rank(&combined[k].chrom) {
            Ok(v) => v,
            Err(e) => {
                assert(cv[k as int].chrom == combined@[k as int]@.chrom);
                assert(!(rank_of(cv[k as int].chrom) is Some));
                assert(!all_resolvable(cv));
                return Err(e);
            },
        };
        let ghost before = ranked_views(with_keys@);
        with_keys.push(RankedRow { rank, row: combined[k].clone() });
        proof {
            assert(ranked_views(with_keys@) =~= before.push(
                RankedView { rank: rank as int, row: cv[k as int] },
            ));
            assert(ranked_views(with_keys@) =~= keyed(cv.take(k as int + 1)));
        }
        k += 1;
    }
    proof {
        assert(cv.take(cv.len() as int) =~= cv);
        assert(ranked_views(with_keys@) == keyed(cv));
    }

    // Order deterministically, then drop the derived rank.
    let sorted = sort_rows(&with_keys);
    let mut out: Vec<CandidateMatch> = Vec::new();
    let mut t: usize = 0;
    let ghost sv = ranked_views(sorted@);
    assert(row_views(out@) =~= sv.map_values(|x: RankedView| x.row).take(0));
    while t < sorted.len()
        invariant
            0 <= t <= sorted@.len(),
            sv == ranked_views(sorted@),
            row_views(out@) == sv.map_values(|x: RankedView| x.row).take(t as int),
        decreases sorted@.len() - t,
    {
        let ghost before = row_views(out@);
        out.push(sorted[t].row.clone());
        proof {
            assert(row_views(out@) =~= before.push(sv[t as int].row));
            assert(row_views(out@) =~= sv.map_values(|x: RankedView| x.row).take(t as int + 1));
        }
        t += 1;
    }
    proof {
        assert(sv.map_values(|x: RankedView| x.row).take(sv.len() as int) =~= sv.map_values(
            |x: RankedView| x.row,
        ));
        assert(row_views(out@) == relocated(ms));
    }
    Ok(out)
}

/// A filtered sequence's rows are rows of the input.
proof fn lemma_filter_element_of(s: Seq<MatchView>, pred: spec_fn(MatchView) -> bool, k: int)
    requires
        0 <= k < s.filter(pred).len(),
    ensures
        exists|w: int| 0 <= w < s.len() && #[trigger] s[w] == s.filter(pred)[k],
    decreases s.len(),
{
    reveal(Seq::filter);
    if s.len() > 0 {
        let prefix = s.drop_last();
        if pred(s.last()) && k == s.filter(pred).len() - 1 {
            assert(s[s.len() - 1] == s.filter(pred)[k]);
        } else {
            lemma_filter_element_of(prefix, pred, k);
            let w = choose|w: int| 0 <= w < prefix.len() && #[trigger] prefix[w] == prefix.filter(
                pred,
            )[k];
            assert(s[w] == s.filter(pred)[k]);
        }
    }
}

} // verus!
