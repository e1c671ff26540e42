//! Deterministic ordering of the final rows.
//!
//! Every chromosome name maps to a fixed numeric rank (`chr1`..`chr22` to
//! 1..22, `chrX` to 97, `chrY` to 98, `chrM` to 99; anything else is a fatal
//! parse error); rows are then sorted ascending by rank, alignment start,
//! alignment end, region start and region end, with a stable insertion so
//! that rows with equal keys keep their relative order.

use vstd::prelude::*;

use crate::records::{CandidateMatch, MatchView, RelocError};

verus! {

/// The numeric rank of a chromosome name, or nothing when the name is not
/// `chr1`..`chr22`, `chrX`, `chrY` or `chrM`.
pub open spec fn rank_of(name: Seq<u8>) -> Option<int> {
    if name.len() >= 3 && name[0] == 99 && name[1] == 104 && name[2] == 114 {
        // The name starts with `chr`.
        if name.len() == 4 {
            let b = name[3];
            if 49 <= b <= 57 {
                Some((b - 48) as int)
            } else if b == 88 {
                Some(97int)
            } else if b == 89 {
                Some(98int)
            } else if b == 77 {
                Some(99int)
            } else {
                None
            }
        } else if name.len() == 5 && 49 <= name[3] <= 50 && 48 <= name[4] <= 57 {
            let v = (name[3] - 48) * 10 + (name[4] - 48);
            if v <= 22 {
                Some(v as int)
            } else {
                None
            }
        } else {
            None
        }
    } else {
        None
    }
}

/// Resolves a chromosome name to its numeric rank; an unresolvable name is a
/// fatal [`RelocError::ParseError`].
pub fn chrom_rank(name: &Vec<u8>) -> (r: Result<i64, RelocError>)
    ensures
        r is Ok <==> rank_of(name@) is Some,
        r matches Ok(v) ==> rank_of(name@) == Some(v as int),
        r is Err ==> r == Err::<i64, RelocError>(RelocError::ParseError),
{
    if name.len() < 4 || name[0] != 99 || name[1] != 104 || name[2] != 114 {
        return Err(RelocError::ParseError);
    }
    if name.len() == 4 {
        let b = name[3];
        if b >= 49 && b <= 57 {
            Ok((b - 48) as i64)
        } else if b == 88 {
            Ok(97)
        } else if b == 89 {
            Ok(98)
        } else if b == 77 {
            Ok(99)
        } else {
            Err(RelocError::ParseError)
        }
    } else if name.len() == 5 && name[3] >= 49 && name[3] <= 50 && name[4] >= 48 && name[4] <= 57 {
        let v = (name[3] - 48) * 10 + (name[4] - 48);
        if v <= 22 {
            Ok(v as i64)
        } else {
            Err(RelocError::ParseError)
        }
    } else {
        Err(RelocError::ParseError)
    }
}

/// A row together with its derived chromosome rank, the sort key's leading
/// field.  The rank is dropped again before emission.
pub struct RankedRow {
    pub rank: i64,
    pub row: CandidateMatch,
}

/// The mathematical image of a [`RankedRow`].
#[verifier::ext_equal]
pub ghost struct RankedView {
    pub rank: int,
    pub row: MatchView,
}

impl View for RankedRow {
    type V = RankedView;

    open spec fn view(&self) -> RankedView {
        RankedView { rank: self.rank as int, row: self.row@ }
    }
}

/// The views of a sequence of ranked rows.
pub open spec fn ranked_views(s: Seq<RankedRow>) -> Seq<RankedView> {
    s.map_values(|r: RankedRow| r@)
}

/// Strict lexicographic order on the sort key: chromosome rank, alignment
/// start, alignment end, region start, region end, all ascending.
pub open spec fn key_lt(x: RankedView, y: RankedView) -> bool {
    x.rank < y.rank || (x.rank == y.rank && (x.row.align_start < y.row.align_start || (
    x.row.align_start == y.row.align_start && (x.row.align_end < y.row.align_end || (
    x.row.align_end == y.row.align_end && (x.row.region_start < y.row.region_start || (
    x.row.region_start == y.row.region_start && x.row.region_end < y.row.region_end)))))))
}

/// No later row's key is strictly below an earlier row's key.
pub open spec fn sorted_by_key(s: Seq<RankedView>) -> bool {
    forall|i: int, j: int| 0 <= i < j < s.len() ==> !key_lt(#[trigger] s[j], #[trigger] s[i])
}

/// Where a stable insertion puts `m`: after every row whose key is at or
/// below `m`'s, before the first strictly greater one.
pub open spec fn insert_sorted(m: RankedView, s: Seq<RankedView>) -> Seq<RankedView>
    decreases s.len(),
{
    if s.len() == 0 {
        seq![m]
    } else if key_lt(m, s[0]) {
        seq![m] + s
    } else {
        seq![s[0]] + insert_sorted(m, s.skip(1))
    }
}

/// The stable sort of `s`: rows inserted one after the other, in input order.
pub open spec fn sort_spec(s: Seq<RankedView>) -> Seq<RankedView>
    decreases s.len(),
{
    if s.len() == 0 {
        Seq::empty()
    } else {
        insert_sorted(s.last(), sort_spec(s.drop_last()))
    }
}

/// A stable insertion is an insertion at the first position whose row is
/// strictly greater than the new one.
proof fn lemma_insert_sorted_at(s: Seq<RankedView>, m: RankedView, pos: int)
    requires
        0 <= pos <= s.len(),
        forall|t: int| 0 <= t < pos ==> !key_lt(m, #[trigger] s[t]),
        pos < s.len() ==> key_lt(m, s[pos]),
    ensures
        insert_sorted(m, s) == s.insert(pos, m),
    decreases s.len(),
{
    if s.len() == 0 {
        assert(insert_sorted(m, s) =~= s.insert(0, m));
    } else if pos == 0 {
        assert(insert_sorted(m, s) =~= s.insert(0, m));
    } else {
        let rest = s.skip(1);
        assert(forall|t: int| 0 <= t < rest.len() ==> rest[t] == s[t + 1]);
        lemma_insert_sorted_at(rest, m, pos - 1);
        assert(seq![s[0]] + rest.insert(pos - 1, m) =~= s.insert(pos, m));
    }
}

/// Inserting into a sorted sequence keeps it sorted.
proof fn lemma_insert_sorted_keeps_order(m: RankedView, s: Seq<RankedView>)
    requires
        sorted_by_key(s),
    ensures
        sorted_by_key(insert_sorted(m, s)),
        insert_sorted(m, s).len() == s.len() + 1,
    decreases s.len(),
{
    let out = insert_sorted(m, s);
    if s.len() == 0 {
    } else if key_lt(m, s[0]) {
        assert forall|i: int, j: int| 0 <= i < j < out.len() implies !key_lt(
            #[trigger] out[j],
            #[trigger] out[i],
        ) by {
            assert(out[j] == s[j - 1]);
            if i > 0 {
                assert(out[i] == s[i - 1]);
            } else {
                // m is at or below s[0], which is at or below s[j - 1].
                if j - 1 > 0 && key_lt(s[j - 1], m) {
                    assert(!key_lt(s[j - 1], s[0]));
                }
            }
        }
    } else {
        let rest = s.skip(1);
        assert(forall|t: int| 0 <= t < rest.len() ==> rest[t] == s[t + 1]);
        lemma_insert_sorted_keeps_order(m, rest);
        let tail = insert_sorted(m, rest);
        assert(out == seq![s[0]] + tail);
        assert forall|i: int, j: int| 0 <= i < j < out.len() implies !key_lt(
            #[trigger] out[j],
            #[trigger] out[i],
        ) by {
            assert(out[j] == tail[j - 1]);
            if i > 0 {
                assert(out[i] == tail[i - 1]);
            } else {
                // Every row of the tail is at or above s[0]: it is either a
                // row of `rest`, or m itself, which is at or above s[0].
                lemma_insert_membership(m, rest, j - 1);
            }
        }
    }
}

/// Every row of an insertion's result is the inserted row or an input row.
proof fn lemma_insert_membership(m: RankedView, s: Seq<RankedView>, k: int)
    requires
        0 <= k < insert_sorted(m, s).len(),
    ensures
        insert_sorted(m, s)[k] == m || exists|t: int|
            0 <= t < s.len() && #[trigger] s[t] == insert_sorted(m, s)[k],
    decreases s.len(),
{
    let out = insert_sorted(m, s);
    if s.len() == 0 {
    } else if key_lt(m, s[0]) {
        if k > 0 {
            assert(out[k] == s[k - 1]);
        }
    } else {
        let rest = s.skip(1);
        if k > 0 {
            lemma_insert_membership(m, rest, k - 1);
            assert(out[k] == insert_sorted(m, rest)[k - 1]);
            if insert_sorted(m, rest)[k - 1] != m {
                let t = choose|t: int|
                    0 <= t < rest.len() && #[trigger] rest[t] == insert_sorted(m, rest)[k - 1];
                assert(s[t + 1] == out[k]);
            }
        }
    }
}

/// The stable sort orders its rows by the sort key.
pub proof fn lemma_sort_spec_sorted(s: Seq<RankedView>)
    ensures
        sorted_by_key(sort_spec(s)),
        sort_spec(s).len() == s.len(),
    decreases s.len(),
{
    if s.len() > 0 {
        lemma_sort_spec_sorted(s.drop_last());
        lemma_insert_sorted_keeps_order(s.last(), sort_spec(s.drop_last()));
    }
}

/// Strict key order as executable comparison.
pub fn key_lt_exec(x: &RankedRow, y: &RankedRow) -> (r: bool)
    ensures
        r == key_lt(x@, y@),
{
    if x.rank != y.rank {
        return x.rank < y.rank;
    }
    if x.row.align_start != y.row.align_start {
        return x.row.align_start < y.row.align_start;
    }
    if x.row.align_end != y.row.align_end {
        return x.row.align_end < y.row.align_end;
    }
    if x.row.region_start != y.row.region_start {
        return x.row.region_start < y.row.region_start;
    }
    x.row.region_end < y.row.region_end
}

/// Sorts the keyed rows ascending by chromosome rank, alignment start,
/// alignment end, region start and region end, keeping the input order of
/// rows with equal keys: a stable insertion sort.
pub fn sort_rows(rows: &Vec<RankedRow>) -> (sorted: Vec<RankedRow>)
    ensures
        ranked_views(sorted@) == sort_spec(ranked_views(rows@)),
{
    let ghost whole = ranked_views(rows@);
    let mut out: Vec<RankedRow> = Vec::new();
    let mut i: usize = 0;
    assert(ranked_views(out@) =~= sort_spec(ranked_views(rows@.take(0))));
    while i < rows.len()
        invariant
            0 <= i <= rows@.len(),
            whole == ranked_views(rows@),
            ranked_views(out@) == sort_spec(ranked_views(rows@.take(i as int))),
            out@.len() == i,
        decreases rows@.len() - i,
    {
        let item = RankedRow { rank: rows[i].rank, row: rows[i].row.clone() };
        assert(item@ == whole[i as int]);

        let mut pos: usize = 0;
        while pos < out.len() && !key_lt_exec(&item, &out[pos])
            invariant
                0 <= pos <= out@.len(),
                item@ == whole[i as int],
                forall|t: int| 0 <= t < pos ==> !key_lt(item@, #[trigger] ranked_views(out@)[t]),
            decreases out@.len() - pos,
        {
            pos += 1;
        }

        let ghost old_out = ranked_views(out@);
        out.insert(pos, item);
        proof {
            assert(ranked_views(out@) =~= old_out.insert(pos as int, whole[i as int]));
            lemma_insert_sorted_at(old_out, whole[i as int], pos as int);
            assert(ranked_views(rows@.take(i as int + 1)).drop_last() =~= ranked_views(
                rows@.take(i as int),
            ));
            assert(ranked_views(rows@.take(i as int + 1)).last() == whole[i as int]);
        }
        i += 1;
    }
    assert(rows@.take(rows@.len() as int) =~= rows@);
    out
}

} // verus!
