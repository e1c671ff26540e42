//! The typed records the pipeline works on, and the error taxonomy.

use vstd::prelude::*;

verus! {

/// Why a run failed.  Both variants are fatal: the pipeline never recovers
/// locally, it hands the error to the caller unchanged.
#[derive(Clone, Copy, Debug, PartialEq, Eq, Structural)]
pub enum RelocError {
    /// A CIGAR token could not be read as `<digits><single-letter-op>`, a run
    /// length did not fit the coordinate type, or a chromosome name has no
    /// numeric rank.
    ParseError,
    /// The decoded alignment footprint disagrees with the reported alignment
    /// end coordinate: the two upstream tool outputs contradict each other.
    IntegrityError,
}

/// One observed overlap between a read's alignment and one candidate region,
/// as reported by the upstream intersection step.  Interval coordinates are
/// half-open: `start` inclusive, `end` exclusive.
#[derive(Debug, PartialEq, Eq)]
pub struct CandidateMatch {
    /// Chromosome name, e.g. `chr7`.
    pub chrom: Vec<u8>,
    /// Alignment start on the reference (inclusive).
    pub align_start: i64,
    /// Alignment end on the reference (exclusive).
    pub align_end: i64,
    /// Identifier of the read.
    pub read_id: Vec<u8>,
    /// Candidate region start (inclusive).
    pub region_start: i64,
    /// Candidate region end (exclusive).
    pub region_end: i64,
    /// Identifier of the candidate region.
    pub region_id: Vec<u8>,
    /// The read's own CIGAR string.
    pub cigar: Vec<u8>,
}

/// The mathematical image of a [`CandidateMatch`]: byte strings become
/// sequences, machine integers become unbounded integers.
#[verifier::ext_equal]
pub ghost struct MatchView {
    pub chrom: Seq<u8>,
    pub align_start: int,
    pub align_end: int,
    pub read_id: Seq<u8>,
    pub region_start: int,
    pub region_end: int,
    pub region_id: Seq<u8>,
    pub cigar: Seq<u8>,
}

impl View for CandidateMatch {
    type V = MatchView;

    open spec fn view(&self) -> MatchView {
        MatchView {
            chrom: self.chrom@,
            align_start: self.align_start as int,
            align_end: self.align_end as int,
            read_id: self.read_id@,
            region_start: self.region_start as int,
            region_end: self.region_end as int,
            region_id: self.region_id@,
            cigar: self.cigar@,
        }
    }
}

/// The views of a sequence of rows.
pub open spec fn row_views(rows: Seq<CandidateMatch>) -> Seq<MatchView> {
    rows.map_values(|r: CandidateMatch| r@)
}

/// Byte-string equality.
pub fn bytes_eq(a: &Vec<u8>, b: &Vec<u8>) -> (r: bool)
    ensures
        r <==> a@ == b@,
{
    if a.len() != b.len() {
        assert(a@ != b@) by {
            assert(a@.len() != b@.len());
        }
        return false;
    }
    let mut i: usize = 0;
    while i < a.len()
        invariant
            i <= a.len(),
            a@.len() == b@.len(),
            forall|j: int| 0 <= j < i ==> a@[j] == b@[j],
        decreases a.len() - i,
    {
        if a[i] != b[i] {
            return false;
        }
        i += 1;
    }
    assert(a@ =~= b@);
    true
}

/// A copy of a byte string.
pub fn clone_bytes(v: &Vec<u8>) -> (r: Vec<u8>)
    ensures
        r@ == v@,
{
    let mut out: Vec<u8> = Vec::new();
    let mut i: usize = 0;
    while i < v.len()
        invariant
            i <= v.len(),
            out@ == v@.take(i as int),
        decreases v.len() - i,
    {
        out.push(v[i]);
        assert(out@ =~= v@.take(i as int + 1));
        i += 1;
    }
    assert(v@.take(v@.len() as int) =~= v@);
    out
}

impl Clone for CandidateMatch {
    /// A copy of the row; its view is the original's view.
    fn clone(&self) -> (r: Self)
        ensures
            r@ == self@,
    {
        CandidateMatch {
            chrom: clone_bytes(&self.chrom),
            align_start: self.align_start,
            align_end: self.align_end,
            read_id: clone_bytes(&self.read_id),
            region_start: self.region_start,
            region_end: self.region_end,
            region_id: clone_bytes(&self.region_id),
            cigar: clone_bytes(&self.cigar),
        }
    }
}

} // verus!
