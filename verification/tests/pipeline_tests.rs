use readloc::pipeline::relocate;
use readloc::records::{CandidateMatch, RelocError};

fn row(
    chrom: &[u8],
    align_start: i64,
    align_end: i64,
    read_id: &[u8],
    region_start: i64,
    region_end: i64,
    region_id: &[u8],
    cigar: &[u8],
) -> CandidateMatch {
    CandidateMatch {
        chrom: chrom.to_vec(),
        align_start,
        align_end,
        read_id: read_id.to_vec(),
        region_start,
        region_end,
        region_id: region_id.to_vec(),
        cigar: cigar.to_vec(),
    }
}

#[test]
fn single_candidate_passes_through_unchanged() {
    // A single-candidate read is unambiguous and survives as it is.
    let rows = vec![row(b"chr1", 100, 110, b"read1", 100, 110, b"geneA", b"10M")];
    let out = relocate(&rows).unwrap();
    assert_eq!(out.len(), 1);
    assert_eq!(out[0].chrom, b"chr1".to_vec());
    assert_eq!(out[0].align_start, 100);
    assert_eq!(out[0].align_end, 110);
    assert_eq!(out[0].read_id, b"read1".to_vec());
    assert_eq!(out[0].region_start, 100);
    assert_eq!(out[0].region_end, 110);
    assert_eq!(out[0].region_id, b"geneA".to_vec());
    assert_eq!(out[0].cigar, b"10M".to_vec());
}

#[test]
fn tie_goes_to_first_candidate() {
    // CIGAR 5M3N5M at offset 0 covers [0,5) and [8,13); region A [0,5) and
    // region B [8,13) both score 5, so the first-seen candidate wins.
    let rows = vec![
        row(b"chr1", 0, 13, b"read1", 0, 5, b"geneA", b"5M3N5M"),
        row(b"chr1", 0, 13, b"read1", 8, 13, b"geneB", b"5M3N5M"),
    ];
    let out = relocate(&rows).unwrap();
    assert_eq!(out.len(), 1);
    assert_eq!(out[0].region_id, b"geneA".to_vec());
    assert_eq!(out[0].region_start, 0);
    assert_eq!(out[0].region_end, 5);
}

#[test]
fn higher_coverage_beats_earlier_position() {
    // Region B overlaps six bases of the footprint, region A only two: B
    // wins although it comes second.
    let rows = vec![
        row(b"chr1", 0, 10, b"read1", 0, 2, b"geneA", b"10M"),
        row(b"chr1", 0, 10, b"read1", 3, 9, b"geneB", b"10M"),
    ];
    let out = relocate(&rows).unwrap();
    assert_eq!(out.len(), 1);
    assert_eq!(out[0].region_id, b"geneB".to_vec());
}

#[test]
fn unresolvable_chromosome_is_a_parse_error() {
    let rows = vec![row(b"chrZ", 0, 10, b"read1", 0, 10, b"geneA", b"10M")];
    assert_eq!(relocate(&rows), Err(RelocError::ParseError));
}

#[test]
fn empty_input_gives_empty_output() {
    let rows: Vec<CandidateMatch> = Vec::new();
    let out = relocate(&rows).unwrap();
    assert!(out.is_empty());
}

#[test]
fn output_is_sorted_by_chromosome_rank_then_coordinates() {
    let rows = vec![
        row(b"chrX", 5, 15, b"read1", 5, 15, b"geneD", b"10M"),
        row(b"chr2", 0, 10, b"read2", 0, 10, b"geneB", b"10M"),
        row(b"chr1", 50, 60, b"read3", 50, 60, b"geneA2", b"10M"),
        row(b"chr1", 20, 30, b"read4", 20, 30, b"geneA1", b"10M"),
        row(b"chr10", 0, 10, b"read5", 0, 10, b"geneC", b"10M"),
    ];
    let out = relocate(&rows).unwrap();
    let order: Vec<Vec<u8>> = out.iter().map(|r| r.region_id.clone()).collect();
    assert_eq!(
        order,
        vec![
            b"geneA1".to_vec(),
            b"geneA2".to_vec(),
            b"geneB".to_vec(),
            b"geneC".to_vec(),
            b"geneD".to_vec(),
        ]
    );
}

#[test]
fn equal_sort_keys_keep_input_order() {
    // Two reads with identical coordinates: the sort is stable, so the
    // earlier input row comes out first.
    let rows = vec![
        row(b"chr1", 0, 10, b"read1", 0, 10, b"first", b"10M"),
        row(b"chr1", 0, 10, b"read2", 0, 10, b"second", b"10M"),
    ];
    let out = relocate(&rows).unwrap();
    assert_eq!(out[0].region_id, b"first".to_vec());
    assert_eq!(out[1].region_id, b"second".to_vec());
}

#[test]
fn footprint_end_disagreement_is_an_integrity_error() {
    // The decoded footprint of 10M at offset 0 ends at 10, not 12; only
    // ambiguous rows are scored, so the read needs two candidates.
    let rows = vec![
        row(b"chr1", 0, 12, b"read1", 0, 5, b"geneA", b"10M"),
        row(b"chr1", 0, 12, b"read1", 5, 12, b"geneB", b"10M"),
    ];
    assert_eq!(relocate(&rows), Err(RelocError::IntegrityError));
}

#[test]
fn malformed_cigar_in_ambiguous_read_is_a_parse_error() {
    let rows = vec![
        row(b"chr1", 0, 10, b"read1", 0, 5, b"geneA", b"10M5"),
        row(b"chr1", 0, 10, b"read1", 5, 10, b"geneB", b"10M5"),
    ];
    assert_eq!(relocate(&rows), Err(RelocError::ParseError));
}

#[test]
fn unambiguous_rows_are_never_scored() {
    // A single-candidate read with a nonsensical CIGAR passes through: only
    // ambiguous reads are scored.
    let rows = vec![row(b"chr1", 0, 10, b"read1", 0, 10, b"geneA", b"oops")];
    let out = relocate(&rows).unwrap();
    assert_eq!(out.len(), 1);
    assert_eq!(out[0].cigar, b"oops".to_vec());
}

#[test]
fn mixed_run_resolves_each_read_once() {
    let rows = vec![
        row(b"chr2", 0, 10, b"readA", 0, 10, b"g1", b"10M"),
        row(b"chr1", 0, 10, b"readB", 0, 4, b"g2", b"10M"),
        row(b"chr1", 0, 10, b"readB", 2, 10, b"g3", b"10M"),
        row(b"chr1", 30, 40, b"readC", 30, 40, b"g4", b"10M"),
    ];
    let out = relocate(&rows).unwrap();
    // readB keeps g3 (coverage 8 beats 4); one row per read, sorted.
    assert_eq!(out.len(), 3);
    assert_eq!(out[0].region_id, b"g3".to_vec());
    assert_eq!(out[1].region_id, b"g4".to_vec());
    assert_eq!(out[2].region_id, b"g1".to_vec());
}
