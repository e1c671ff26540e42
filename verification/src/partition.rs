//! Splitting candidate rows into unambiguous and ambiguous groups.
//!
//! A read identifier is unambiguous when exactly one candidate row exists for
//! it across the whole input, ambiguous when two or more do.  The split keeps
//! each row's original relative order; no row is created, dropped or changed.

use vstd::prelude::*;

use crate::records::{bytes_eq, row_views, CandidateMatch, MatchView};

verus! {

/// Holds of the rows whose read identifier is `id`.
pub open spec fn id_match(id: Seq<u8>) -> spec_fn(MatchView) -> bool {
    |m: MatchView| m.read_id == id
}

/// How many rows of `ms` carry the read identifier `id`.
pub open spec fn count_id(ms: Seq<MatchView>, id: Seq<u8>) -> nat {
    ms.filter(id_match(id)).len()
}

/// Holds of the rows whose read identifier occurs exactly once in `all`.
pub open spec fn keep_unique(all: Seq<MatchView>) -> spec_fn(MatchView) -> bool {
    |m: MatchView| count_id(all, m.read_id) == 1
}

/// Holds of the rows whose read identifier occurs more than once in `all`.
pub open spec fn keep_repeated(all: Seq<MatchView>) -> spec_fn(MatchView) -> bool {
    |m: MatchView| count_id(all, m.read_id) >= 2
}

/// The rows of unambiguous reads, in input order.
pub open spec fn unambiguous_of(ms: Seq<MatchView>) -> Seq<MatchView> {
    ms.filter(keep_unique(ms))
}

/// The rows of ambiguous reads, in input order.
pub open spec fn ambiguous_of(ms: Seq<MatchView>) -> Seq<MatchView> {
    ms.filter(keep_repeated(ms))
}

/// Filtering a sequence extended by one element keeps the old filtered
/// sequence and appends the element exactly when it satisfies the predicate.
pub proof fn lemma_filter_push<A>(s: Seq<A>, x: A, pred: spec_fn(A) -> bool)
    ensures
        s.push(x).filter(pred) == if pred(x) {
            s.filter(pred).push(x)
        } else {
            s.filter(pred)
        },
{
    reveal(Seq::filter);
    assert(s.push(x).drop_last() =~= s);
    assert(s.push(x).last() == x);
}

/// How many rows with identifier `id` survive a filter whose predicate gives
/// every row with that identifier the same verdict `v`.
proof fn lemma_count_filtered(
    s: Seq<MatchView>,
    pred: spec_fn(MatchView) -> bool,
    id: Seq<u8>,
    v: bool,
)
    requires
        forall|m: MatchView| (#[trigger] pred(m)) == if m.read_id == id {
            v
        } else {
            pred(m)
        },
    ensures
        count_id(s.filter(pred), id) == if v {
            count_id(s, id)
        } else {
            0
        },
    decreases s.len(),
{
    if s.len() == 0 {
        assert(s.filter(pred) =~= s) by {
            reveal(Seq::filter);
        }
        assert(s.filter(id_match(id)) =~= s) by {
            reveal(Seq::filter);
        }
    } else {
        let prefix = s.drop_last();
        let x = s.last();
        lemma_count_filtered(prefix, pred, id, v);
        assert(s =~= prefix.push(x));
        lemma_filter_push(prefix, x, pred);
        lemma_filter_push(prefix, x, id_match(id));
        if pred(x) {
            lemma_filter_push(prefix.filter(pred), x, id_match(id));
        }
    }
}

/// Counts the rows that carry the read identifier `id`.
pub fn count_occurrences(rows: &Vec<CandidateMatch>, id: &Vec<u8>) -> (n: usize)
    ensures
        n == count_id(row_views(rows@), id@),
{
    let mut n: usize = 0;
    let mut i: usize = 0;
    assert(row_views(rows@.take(0)) =~= Seq::<MatchView>::empty());
    assert(row_views(rows@.take(0)).filter(id_match(id@)) =~= Seq::<MatchView>::empty()) by {
        reveal(Seq::filter);
    }
    while i < rows.len()
        invariant
            0 <= i <= rows@.len(),
            n <= i,
            n == count_id(row_views(rows@.take(i as int)), id@),
        decreases rows@.len() - i,
    {
        proof {
            assert(row_views(rows@.take(i as int + 1)) =~= row_views(rows@.take(i as int)).push(
                rows@[i as int]@,
            ));
            lemma_filter_push(row_views(rows@.take(i as int)), rows@[i as int]@, id_match(id@));
        }
        if bytes_eq(&rows[i].read_id, id) {
            n += 1;
        }
        i += 1;
    }
    assert(rows@.take(rows@.len() as int) =~= rows@);
    n
}

/// Splits the candidate rows into the rows of unambiguous reads (exactly one
/// candidate in the whole input) and the rows of ambiguous reads (two or
/// more), each group keeping the input's relative order.
pub fn partition(rows: &Vec<CandidateMatch>) -> (r: (Vec<CandidateMatch>, Vec<CandidateMatch>))
    ensures
        row_views(r.0@) == unambiguous_of(row_views(rows@)),
        row_views(r.1@) == ambiguous_of(row_views(rows@)),
{
    let ghost all = row_views(rows@);
    let mut uniq: Vec<CandidateMatch> = Vec::new();
    let mut ambi: Vec<CandidateMatch> = Vec::new();
    let mut i: usize = 0;
    proof {
        assert(row_views(rows@.take(0)) =~= Seq::<MatchView>::empty());
        assert(row_views(uniq@) =~= Seq::<MatchView>::empty());
        assert(row_views(ambi@) =~= Seq::<MatchView>::empty());
        assert(Seq::<MatchView>::empty().filter(keep_unique(all)) =~= Seq::<MatchView>::empty())
            by {
            reveal(Seq::filter);
        }
        assert(Seq::<MatchView>::empty().filter(keep_repeated(all)) =~= Seq::<
            MatchView,
        >::empty()) by {
            reveal(Seq::filter);
        }
    }
    while i < rows.len()
        invariant
            0 <= i <= rows@.len(),
            all == row_views(rows@),
            row_views(uniq@) == row_views(rows@.take(i as int)).filter(keep_unique(all)),
            row_views(ambi@) == row_views(rows@.take(i as int)).filter(keep_repeated(all)),
        decreases rows@.len() - i,
    {
        let ghost prefix = row_views(rows@.take(i as int));
        proof {
            assert(row_views(rows@.take(i as int + 1)) =~= prefix.push(rows@[i as int]@));
            lemma_filter_push(prefix, rows@[i as int]@, keep_unique(all));
            lemma_filter_push(prefix, rows@[i as int]@, keep_repeated(all));
        }
        let n = count_occurrences(rows, &rows[i].read_id);
        if n == 1 {
            let ghost old_uniq = row_views(uniq@);
            uniq.push(rows[i].clone());
            assert(row_views(uniq@) =~= old_uniq.push(rows@[i as int]@));
        } else if n > 1 {
            let ghost old_ambi = row_views(ambi@);
            ambi.push(rows[i].clone());
            assert(row_views(ambi@) =~= old_ambi.push(rows@[i as int]@));
        }
        i += 1;
    }
    assert(rows@.take(rows@.len() as int) =~= rows@);
    (uniq, ambi)
}

/// Every read identifier falls in exactly one class: one with a single row
/// keeps that row in the unambiguous output and none in the ambiguous one,
/// one with several rows keeps all of them in the ambiguous output and none
/// in the unambiguous one, and no identifier is lost.
pub proof fn lemma_partition_total(ms: Seq<MatchView>, id: Seq<u8>)
    ensures
        count_id(unambiguous_of(ms), id) + count_id(ambiguous_of(ms), id) == count_id(ms, id),
        count_id(unambiguous_of(ms), id) == if count_id(ms, id) == 1 {
            1nat
        } else {
            0nat
        },
        count_id(ambiguous_of(ms), id) == if count_id(ms, id) >= 2 {
            count_id(ms, id)
        } else {
            0nat
        },
{
    lemma_count_filtered(ms, keep_unique(ms), id, count_id(ms, id) == 1);
    lemma_count_filtered(ms, keep_repeated(ms), id, count_id(ms, id) >= 2);
}

} // verus!
