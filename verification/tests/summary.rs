use onsm::model::PairedLocus;
use onsm::summary::{
    add_interval, assembly_length, compute_percentages, merge_intervals, parse_calls_tsv_str, pct,
    union_len, union_len_all, write_summary_tsv, IntervalMap,
};

#[test]
fn union_merges_overlaps() {
    // intervals: [0,10), [5,20), [30,40) => total = 20 + 10 = 30
    let v = vec![(0, 10), (5, 20), (30, 40)];
    assert_eq!(union_len(v), 30);
}

#[test]
fn union_does_not_depend_on_order_or_repetition() {
    assert_eq!(union_len(vec![(30, 40), (5, 20), (0, 10)]), 30);
    assert_eq!(union_len(vec![(0, 10), (5, 20), (30, 40), (0, 10), (5, 20), (30, 40)]), 30);
    assert_eq!(union_len(vec![(0, 30), (5, 20), (30, 40)]), 40);
}

#[test]
fn merging_is_idempotent_and_ignores_order() {
    let given = vec![(30, 40), (0, 10), (5, 20), (20, 22), (50, 50), (9, 2), (41, 45)];
    let merged = merge_intervals(given.clone());
    assert_eq!(merged, vec![(0, 22), (30, 40), (41, 45)]);
    assert_eq!(merge_intervals(merged.clone()), merged);
    let mut reversed = given.clone();
    reversed.reverse();
    assert_eq!(merge_intervals(reversed), merged);
    assert_eq!(union_len(merged), union_len(given));
    assert_eq!(merge_intervals(vec![]), vec![]);
    assert_eq!(merge_intervals(vec![(3, 3)]), vec![]);
}

#[test]
fn union_of_edge_cases() {
    assert_eq!(union_len(vec![]), 0);
    assert_eq!(union_len(vec![(7, 7)]), 0);
    assert_eq!(union_len(vec![(9, 3)]), 0);
    assert_eq!(union_len(vec![(0, 5), (5, 10)]), 10);
    assert_eq!(union_len(vec![(0, 5), (6, 10)]), 9);
    assert_eq!(union_len(vec![(0, 5), (20, 20), (3, 3), (9, 1), (4, 8)]), 8);
    assert_eq!(union_len(vec![(0, u32::MAX), (1, 2)]), 4294967295);
}

#[test]
fn percentages_are_percent_values() {
    assert_eq!(pct(0, 1000), 0);
    assert_eq!(pct(1, 1000), 100_000); // 0.1%
    assert_eq!(pct(500, 1000), 50_000_000);
}

#[test]
fn percentages_stay_within_bounds() {
    assert_eq!(pct(1000, 1000), 100_000_000);
    assert_eq!(pct(0, 0), 0);
    assert_eq!(pct(3, 0), 300_000_000);
    assert_eq!(pct(1, 3), 33_333_333);
    assert_eq!(pct(207, 1_000_000), 20_700);
    assert_eq!(pct(u64::MAX, 1), 1_844_674_407_370_955_161_500_000_000);
}

#[test]
fn add_and_union_per_contig() {
    let mut m = IntervalMap::new();
    add_interval(&mut m, "chr1", 0, 10);
    add_interval(&mut m, "chr1", 5, 20);
    add_interval(&mut m, "chr2", 0, 5);
    assert_eq!(union_len_all(&m), 25); // chr1=20, chr2=5
}

#[test]
fn empty_intervals_are_left_out() {
    let mut m = IntervalMap::new();
    assert_eq!(union_len_all(&m), 0);
    add_interval(&mut m, "chr1", 10, 10);
    add_interval(&mut m, "chr1", 10, 5);
    assert_eq!(union_len_all(&m), 0);
    add_interval(&mut m, "chr1", 10, 11);
    add_interval(&mut m, "", 10, 12);
    assert_eq!(union_len_all(&m), 3);
}

fn three_loci() -> Vec<PairedLocus> {
    vec![
        PairedLocus {
            pair_id: "P1".into(),
            nuc_contig: "chr1".into(),
            nuc_start: 100,
            nuc_end: 200,
            mito_contig: "m1".into(),
            mito_start: 100,
            mito_end: 300,
            aln_len: 200,
            aln_ident: 990_000,
        },
        PairedLocus {
            pair_id: "P2".into(),
            nuc_contig: "chr1".into(),
            nuc_start: 500,
            nuc_end: 600,
            mito_contig: "m1".into(),
            mito_start: 400,
            mito_end: 450,
            aln_len: 100,
            aln_ident: 950_000,
        },
        PairedLocus {
            pair_id: "P3".into(),
            nuc_contig: "chr2".into(),
            nuc_start: 0,
            nuc_end: 50,
            mito_contig: "m1".into(),
            mito_start: 800,
            mito_end: 900,
            aln_len: 100,
            aln_ident: 900_000,
        },
    ]
}

#[test]
fn small_summary_counts() {
    // Three loci: one NUMT, one NIMT, one ambiguous
    let pairs = three_loci();
    let calls = parse_calls_tsv_str(
        "pair_id\tcall\nP1\tLikely_NUMT\nP2\tLikely_NIMT\nP3\tAmbiguous\n",
    );
    let mut mito_from_numt = IntervalMap::new();
    let mut nuc_from_nimt = IntervalMap::new();
    // P1 NUMT → contributes mito[100,300)
    add_interval(&mut mito_from_numt, "m1", 100, 300);
    // P2 NIMT → contributes nuc[chr1:500,600)
    add_interval(&mut nuc_from_nimt, "chr1", 500, 600);
    assert_eq!(union_len_all(&mito_from_numt), 200);
    assert_eq!(union_len_all(&nuc_from_nimt), 100);

    // mito=1000, chr1=1000, chr2=1000
    let s = compute_percentages(1000, 2000, &pairs, &calls);
    assert_eq!((s.n_pairs, s.n_numt, s.n_nimt), (3, 1, 1));
    assert_eq!(s.mito_bp_covered_by_numt_homologs, 200);
    assert_eq!(s.nuc_bp_covered_by_nimt_homologs, 100);
}

#[test]
fn summary_percentages_match_hand_computed_unions() {
    let pairs = three_loci();
    let calls = parse_calls_tsv_str(
        "pair_id\tcall\tconfidence\treason_codes\nP1\tLikely_NUMT\t0.9\tscore_difference\nP2\tLikely_NIMT\t0.8\tscore_difference\nP3\tAmbiguous\t0.0\tdelta_below_threshold\n",
    );
    let s = compute_percentages(1000, 2000, &pairs, &calls);
    assert_eq!(s.nuclear_bp_total, 2000);
    assert_eq!(s.mito_bp_total, 1000);
    assert_eq!(s.nuclear_bp_numt, 100);
    assert_eq!(s.nuclear_pct_numt, 5_000_000); // 100 / 2000 = 5%
    assert_eq!(s.mito_bp_nimt, 50);
    assert_eq!(s.mito_pct_nimt, 5_000_000); // 50 / 1000 = 5%
    assert_eq!(s.mito_bp_covered_by_numt_homologs, 200);
    assert_eq!(s.mito_pct_covered_by_numt_homologs, 20_000_000); // 200 / 1000 = 20%
    assert_eq!(s.nuc_bp_covered_by_nimt_homologs, 100);
    assert_eq!(s.nuc_pct_covered_by_nimt_homologs, 5_000_000);
}

#[test]
fn summary_counts_overlapping_loci_once_and_missing_calls_as_ambiguous() {
    let mut pairs = three_loci();
    pairs[1].nuc_start = 150; // chr1:[150,600) overlaps chr1:[100,200)
    pairs[2].pair_id = "P9".into();
    let calls = parse_calls_tsv_str("pair_id\tcall\nP1\tLikely_NUMT\nP2\tLikely_NUMT\nP3\tLikely_NUMT\n");
    let s = compute_percentages(0, 3, &pairs, &calls);
    assert_eq!((s.n_pairs, s.n_numt, s.n_nimt), (3, 2, 0));
    assert!(s.n_numt + s.n_nimt <= s.n_pairs);
    assert_eq!(s.nuclear_bp_numt, 500);
    assert_eq!(s.mito_bp_covered_by_numt_homologs, 250);
    assert_eq!(s.mito_bp_nimt, 0);
    assert_eq!(s.mito_pct_nimt, 0);
    assert_eq!(s.mito_pct_covered_by_numt_homologs, 25_000_000_000); // total of 0 counts as 1
    assert_eq!(s.nuclear_pct_numt, 16_666_666_666);
}

#[test]
fn calls_table_is_read_by_pair_id() {
    let calls = parse_calls_tsv_str(
        "pair_id\tcall\nP1\tLikely_NUMT\trest\n\n  \t \nP2\r\nP3\tAmbiguous\r\nP1\tLikely_NIMT\n\tx\nP4\t",
    );
    assert_eq!(calls.len(), 4);
    assert_eq!(calls.get("P1").map(String::as_str), Some("Likely_NIMT"));
    assert_eq!(calls.get("P3").map(String::as_str), Some("Ambiguous"));
    assert_eq!(calls.get("").map(String::as_str), Some("x"));
    assert_eq!(calls.get("P4").map(String::as_str), Some(""));
    assert_eq!(calls.get("P2"), None);
    assert_eq!(calls.get("pair_id"), None);
    assert_eq!(parse_calls_tsv_str("").len(), 0);
    assert_eq!(parse_calls_tsv_str("P1\tLikely_NUMT").len(), 0);
}

#[test]
fn summary_table_lists_every_metric() {
    let pairs = three_loci();
    let calls = parse_calls_tsv_str("pair_id\tcall\nP1\tLikely_NUMT\nP2\tLikely_NIMT\n");
    let s = compute_percentages(16_569, 3_000_000_000, &pairs, &calls);
    let mut t = String::new();
    write_summary_tsv(&mut t, &s);
    assert_eq!(
        t,
        "metric\tvalue\n\
         n_pairs\t3\n\
         n_numt\t1\n\
         n_nimt\t1\n\
         nuclear_bp_total\t3000000000\n\
         nuclear_bp_numt\t100\n\
         nuclear_pct_numt\t0.000003\n\
         mito_bp_total\t16569\n\
         mito_bp_nimt\t50\n\
         mito_pct_nimt\t0.301768\n\
         mito_bp_covered_by_numt_homologs\t200\n\
         mito_pct_covered_by_numt_homologs\t1.207073\n\
         nuc_bp_covered_by_nimt_homologs\t100\n\
         nuc_pct_covered_by_nimt_homologs\t0.000003\n"
    );
}

#[test]
fn assembly_length_is_the_sum_of_the_contig_lengths() {
    assert_eq!(assembly_length(&vec![]), Some(0));
    assert_eq!(assembly_length(&vec![6, 10, 1]), Some(17));
    assert_eq!(assembly_length(&vec![u64::MAX - 1, 1]), Some(u64::MAX));
    assert_eq!(assembly_length(&vec![u64::MAX, 1, 0]), None);
}
