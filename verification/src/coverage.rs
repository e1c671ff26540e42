//! Scoring how much of a read's aligned footprint lies inside a region.

use vstd::prelude::*;

use crate::cigar::{cigar_ok, cigar_parser, footprint};
use crate::intervals::iv_views;
use crate::records::RelocError;

verus! {

/// The number of points of the interval `p` that lie inside `[c, d)`.
pub open spec fn clip_len(p: (int, int), c: int, d: int) -> int {
    let lo = if p.0 >= c {
        p.0
    } else {
        c
    };
    let hi = if p.1 <= d {
        p.1
    } else {
        d
    };
    if hi > lo {
        hi - lo
    } else {
        0
    }
}

/// The number of points of the intervals `ivs` that lie inside `[c, d)`,
/// counted interval by interval.
pub open spec fn coverage_sum(ivs: Seq<(int, int)>, c: int, d: int) -> int
    decreases ivs.len(),
{
    if ivs.len() == 0 {
        0
    } else {
        clip_len(ivs[0], c, d) + coverage_sum(ivs.skip(1), c, d)
    }
}

/// The decoded footprint reaches exactly the reported alignment end `b`.
pub open spec fn span_ok(s: Seq<u8>, a: int, b: int) -> bool {
    footprint(s, a).len() > 0 && footprint(s, a).last().1 == b
}

/// Counts the reference bases of the read's footprint that lie inside the
/// candidate region `[c, d)`.  The read's CIGAR is decoded at alignment start
/// `a`; the decoded footprint must reach exactly the reported alignment end
/// `b`, otherwise the two upstream tool outputs disagree and the result is
/// [`RelocError::IntegrityError`].  A CIGAR that does not decode gives
/// [`RelocError::ParseError`].
pub fn calc_coverage(a: i64, b: i64, c: i64, d: i64, cigar: &Vec<u8>) -> (r: Result<
    i64,
    RelocError,
>)
    requires
        b - a <= i64::MAX,
    ensures
        r is Ok <==> cigar_ok(cigar@, a as int) && span_ok(cigar@, a as int, b as int),
        r matches Ok(v) ==> v == coverage_sum(footprint(cigar@, a as int), c as int, d as int)
            && v >= 0,
        r matches Err(e) ==> e == (if !cigar_ok(cigar@, a as int) {
            RelocError::ParseError
        } else {
            RelocError::IntegrityError
        }),
{
    let ranges = match cigar_parser(cigar, a) {
        Ok(v) => v,
        Err(e) => {
            return Err(e);
        },
    };
    let ghost fp = iv_views(ranges@);
    if ranges.len() == 0 {
        return Err(RelocError::IntegrityError);
    }
    if ranges[ranges.len() - 1].1 != b {
        assert(fp.last().1 == ranges@[ranges@.len() - 1].1 as int);
        return Err(RelocError::IntegrityError);
    }
    assert(fp.last().1 == b);

    let mut total: i64 = 0;
    let mut k: usize = 0;
    assert(fp.skip(0) =~= fp);
    while k < ranges.len()
        invariant
            0 <= k <= ranges@.len(),
            fp == iv_views(ranges@),
            fp.len() == ranges@.len() > 0,
            crate::intervals::all_proper(fp),
            crate::intervals::separated(fp),
            forall|l: int| 0 <= l < fp.len() ==> a as int <= (#[trigger] fp[l]).0,
            forall|l: int| 0 <= l < fp.len() ==> (#[trigger] fp[l]).1 <= fp.last().1,
            fp.last().1 == b,
            b - a <= i64::MAX,
            total + coverage_sum(fp.skip(k as int), c as int, d as int) == coverage_sum(
                fp,
                c as int,
                d as int,
            ),
            0 <= total,
            k > 0 ==> total <= fp[k as int - 1].1 - a,
        decreases ranges@.len() - k,
    {
        let (s0, e0) = ranges[k];
        let btm = if s0 >= c {
            s0
        } else {
            c
        };
        let top = if e0 <= d {
            e0
        } else {
            d
        };
        assert(fp[k as int] == (s0 as int, e0 as int));
        assert(a <= s0 <= e0 <= b);
        let piece: i64 = if top > btm {
            top - btm
        } else {
            0
        };
        assert(piece == clip_len(fp[k as int], c as int, d as int));
        proof {
            if k > 0 {
                assert(fp[k as int - 1].1 < fp[k as int].0);
            }
            assert(coverage_sum(fp.skip(k as int), c as int, d as int) == clip_len(
                fp[k as int],
                c as int,
                d as int,
            ) + coverage_sum(fp.skip(k as int + 1), c as int, d as int)) by {
                assert(fp.skip(k as int)[0] == fp[k as int]);
                assert(fp.skip(k as int).skip(1) =~= fp.skip(k as int + 1));
            }
        }
        total = total + piece;
        k += 1;
    }
    assert(fp.skip(k as int) =~= Seq::<(int, int)>::empty());
    Ok(total)
}

/// Coverage is zero when the whole footprint and the region interval are
/// disjoint: here the footprint lies inside `[lo, hi)` and the region
/// `[c, d)` ends at or before `lo`, or starts at or after `hi`.
pub proof fn lemma_coverage_zero_when_disjoint(
    ivs: Seq<(int, int)>,
    c: int,
    d: int,
    lo: int,
    hi: int,
)
    requires
        forall|k: int| 0 <= k < ivs.len() ==> lo <= (#[trigger] ivs[k]).0 && ivs[k].1 <= hi,
        d <= lo || hi <= c,
    ensures
        coverage_sum(ivs, c, d) == 0,
    decreases ivs.len(),
{
    if ivs.len() > 0 {
        assert(clip_len(ivs[0], c, d) == 0);
        let rest = ivs.skip(1);
        assert(forall|k: int|
            0 <= k < rest.len() ==> lo <= (#[trigger] rest[k]).0 && rest[k].1 <= hi) by {
            assert(forall|k: int| 0 <= k < rest.len() ==> rest[k] == ivs[k + 1]);
        }
        lemma_coverage_zero_when_disjoint(rest, c, d, lo, hi);
    }
}

/// Coverage is monotonically non-decreasing as the region interval widens.
pub proof fn lemma_coverage_monotone(ivs: Seq<(int, int)>, c: int, d: int, c2: int, d2: int)
    requires
        c2 <= c,
        d <= d2,
    ensures
        coverage_sum(ivs, c, d) <= coverage_sum(ivs, c2, d2),
    decreases ivs.len(),
{
    if ivs.len() > 0 {
        assert(clip_len(ivs[0], c, d) <= clip_len(ivs[0], c2, d2));
        lemma_coverage_monotone(ivs.skip(1), c, d, c2, d2);
    }
}

} // verus!
