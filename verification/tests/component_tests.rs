use readloc::assemble::chrom_rank;
use readloc::cigar::cigar_parser;
use readloc::coverage::calc_coverage;
use readloc::intervals::merge_range;
use readloc::partition::{count_occurrences, partition};
use readloc::records::{CandidateMatch, RelocError};
use readloc::select::{resolve_ambiguous, select_best};

fn row(read_id: &[u8], region_start: i64, region_end: i64, cigar: &[u8]) -> CandidateMatch {
    CandidateMatch {
        chrom: b"chr1".to_vec(),
        align_start: 0,
        align_end: 10,
        read_id: read_id.to_vec(),
        region_start,
        region_end,
        region_id: b"gene".to_vec(),
        cigar: cigar.to_vec(),
    }
}

#[test]
fn merge_collapses_overlap_and_adjacency() {
    let ivs = vec![(0, 5), (5, 10), (12, 14)];
    assert_eq!(merge_range(&ivs), vec![(0, 10), (12, 14)]);
    let ivs = vec![(0, 5), (3, 4), (6, 7)];
    assert_eq!(merge_range(&ivs), vec![(0, 5), (6, 7)]);
    let none: Vec<(i64, i64)> = Vec::new();
    assert_eq!(merge_range(&none), Vec::<(i64, i64)>::new());
    // The merged intervals are pairwise non-overlapping, sorted ascending,
    // and cover exactly the input's points.
    let ivs = vec![(1, 3), (2, 8), (8, 9), (15, 20), (16, 17)];
    assert_eq!(merge_range(&ivs), vec![(1, 9), (15, 20)]);
}

#[test]
fn decoder_emits_match_and_deletion_runs() {
    // 10M at offset 100 covers exactly [100, 110).
    assert_eq!(cigar_parser(&b"10M".to_vec(), 100).unwrap(), vec![(100, 110)]);
    // A splice skip separates two runs.
    assert_eq!(cigar_parser(&b"5M3N5M".to_vec(), 0).unwrap(), vec![(0, 5), (8, 13)]);
    // Deletions consume reference bases and fuse with neighbouring matches.
    assert_eq!(cigar_parser(&b"4M2D4M".to_vec(), 10).unwrap(), vec![(10, 20)]);
    // Insertions and clips consume no reference coordinates.
    assert_eq!(cigar_parser(&b"3S5M2I5M4S".to_vec(), 0).unwrap(), vec![(0, 10)]);
    // An empty CIGAR decodes to no intervals.
    assert_eq!(cigar_parser(&Vec::new(), 5).unwrap(), Vec::<(i64, i64)>::new());
}

#[test]
fn decoder_terminal_coordinate_is_offset_plus_consumed_runs() {
    // M/D/N run lengths: 5 + 3 + 2 + 4 = 14; the insertion is not counted.
    let out = cigar_parser(&b"5M3N2I4D".to_vec(), 7).unwrap();
    assert_eq!(out, vec![(7, 12), (15, 19)]);
    assert_eq!(out.last().unwrap().1, 7 + 5 + 3 + 4);
}

#[test]
fn decoder_rejects_malformed_tokens() {
    // An operation without a run length.
    assert_eq!(cigar_parser(&b"M".to_vec(), 0), Err(RelocError::ParseError));
    // A run length without an operation.
    assert_eq!(cigar_parser(&b"10".to_vec(), 0), Err(RelocError::ParseError));
    assert_eq!(cigar_parser(&b"5M3".to_vec(), 0), Err(RelocError::ParseError));
    // An operation code that is no letter.
    assert_eq!(cigar_parser(&b"5%".to_vec(), 0), Err(RelocError::ParseError));
    // A run length beyond the coordinate type.
    assert_eq!(
        cigar_parser(&b"99999999999999999999M".to_vec(), 0),
        Err(RelocError::ParseError)
    );
}

#[test]
fn coverage_counts_footprint_bases_inside_region() {
    // Scenario: 10M at offset 100 against region [100, 110) covers 10 bases.
    assert_eq!(calc_coverage(100, 110, 100, 110, &b"10M".to_vec()), Ok(10));
    // Partial overlap.
    assert_eq!(calc_coverage(100, 110, 105, 200, &b"10M".to_vec()), Ok(5));
    // The splice gap contributes nothing.
    assert_eq!(calc_coverage(0, 13, 0, 13, &b"5M3N5M".to_vec()), Ok(10));
}

#[test]
fn coverage_is_zero_on_disjoint_region() {
    assert_eq!(calc_coverage(100, 110, 200, 300, &b"10M".to_vec()), Ok(0));
    assert_eq!(calc_coverage(100, 110, 0, 100, &b"10M".to_vec()), Ok(0));
}

#[test]
fn coverage_grows_with_the_region() {
    // Widening the region never lowers the score.
    let narrow = calc_coverage(100, 110, 102, 106, &b"10M".to_vec()).unwrap();
    let wide = calc_coverage(100, 110, 101, 108, &b"10M".to_vec()).unwrap();
    let widest = calc_coverage(100, 110, 90, 200, &b"10M".to_vec()).unwrap();
    assert_eq!(narrow, 4);
    assert_eq!(wide, 7);
    assert_eq!(widest, 10);
    assert!(narrow <= wide && wide <= widest);
}

#[test]
fn coverage_integrity_check_catches_end_disagreement() {
    assert_eq!(calc_coverage(0, 12, 0, 12, &b"10M".to_vec()), Err(RelocError::IntegrityError));
    // A CIGAR with no reference-consuming run has no footprint at all.
    assert_eq!(calc_coverage(0, 0, 0, 5, &b"5S".to_vec()), Err(RelocError::IntegrityError));
    assert_eq!(calc_coverage(0, 10, 0, 10, &b"bad".to_vec()), Err(RelocError::ParseError));
}

#[test]
fn partition_splits_by_candidate_count() {
    let rows = vec![
        row(b"a", 0, 10, b"10M"),
        row(b"b", 0, 4, b"10M"),
        row(b"b", 4, 10, b"10M"),
        row(b"c", 0, 10, b"10M"),
    ];
    let (uniq, ambi) = partition(&rows);
    let uniq_ids: Vec<Vec<u8>> = uniq.iter().map(|r| r.read_id.clone()).collect();
    let ambi_ids: Vec<Vec<u8>> = ambi.iter().map(|r| r.read_id.clone()).collect();
    assert_eq!(uniq_ids, vec![b"a".to_vec(), b"c".to_vec()]);
    assert_eq!(ambi_ids, vec![b"b".to_vec(), b"b".to_vec()]);
    // Every read identifier appears in exactly one of the two groups.
    assert_eq!(count_occurrences(&uniq, &b"b".to_vec()), 0);
    assert_eq!(count_occurrences(&ambi, &b"a".to_vec()), 0);
    assert_eq!(count_occurrences(&rows, &b"b".to_vec()), 2);
}

#[test]
fn select_best_is_a_stable_argmax() {
    // Equal scores: the first row wins.
    let g = vec![row(b"r", 0, 5, b"10M"), row(b"r", 5, 10, b"10M")];
    let w = select_best(&g).unwrap();
    assert_eq!(w.region_start, 0);
    // A strictly better later row wins.
    let g = vec![row(b"r", 0, 3, b"10M"), row(b"r", 2, 9, b"10M")];
    let w = select_best(&g).unwrap();
    assert_eq!(w.region_start, 2);
}

#[test]
fn selection_depends_only_on_the_group_order() {
    // The same group rows give the same winner whatever other reads stand
    // around them in the input.
    let g1 = vec![
        row(b"x", 0, 10, b"10M"),
        row(b"r", 0, 5, b"10M"),
        row(b"x", 1, 10, b"10M"),
        row(b"r", 5, 10, b"10M"),
    ];
    let g2 = vec![
        row(b"r", 0, 5, b"10M"),
        row(b"y", 2, 10, b"10M"),
        row(b"r", 5, 10, b"10M"),
        row(b"y", 3, 10, b"10M"),
    ];
    let out1 = resolve_ambiguous(&g1).unwrap();
    let out2 = resolve_ambiguous(&g2).unwrap();
    let r1 = out1.iter().find(|r| r.read_id == b"r".to_vec()).unwrap();
    let r2 = out2.iter().find(|r| r.read_id == b"r".to_vec()).unwrap();
    assert_eq!(r1.region_start, r2.region_start);
    assert_eq!(r1.region_end, r2.region_end);
}

#[test]
fn chromosome_ranks_follow_the_fixed_table() {
    assert_eq!(chrom_rank(&b"chr1".to_vec()), Ok(1));
    assert_eq!(chrom_rank(&b"chr9".to_vec()), Ok(9));
    assert_eq!(chrom_rank(&b"chr10".to_vec()), Ok(10));
    assert_eq!(chrom_rank(&b"chr22".to_vec()), Ok(22));
    assert_eq!(chrom_rank(&b"chrX".to_vec()), Ok(97));
    assert_eq!(chrom_rank(&b"chrY".to_vec()), Ok(98));
    assert_eq!(chrom_rank(&b"chrM".to_vec()), Ok(99));
    assert_eq!(chrom_rank(&b"chrZ".to_vec()), Err(RelocError::ParseError));
    assert_eq!(chrom_rank(&b"chr0".to_vec()), Err(RelocError::ParseError));
    assert_eq!(chrom_rank(&b"chr23".to_vec()), Err(RelocError::ParseError));
    assert_eq!(chrom_rank(&b"chr100".to_vec()), Err(RelocError::ParseError));
    assert_eq!(chrom_rank(&b"1".to_vec()), Err(RelocError::ParseError));
    assert_eq!(chrom_rank(&b"".to_vec()), Err(RelocError::ParseError));
}
