use onsm::io::bam::{compute_coverage_and_spans_with_tools, locus_evidence, LocusEvidence};
use onsm::io::paf::{pair_and_merge, read_paf};
use onsm::model::{ClassifyParams, Weights, MIN_ID, MIN_LEN};
use onsm::scoring::{classify_pairs, depth_ratios};
use onsm::summary::{compute_percentages, parse_calls_tsv_str, write_summary_tsv};

/// The signed depth contrast of two depth ratios held in millionths.
fn contrast(r_nuc: u128, r_mito: u128) -> i64 {
    let ratio = (r_nuc as f64 / 1e6 + 1e-3) / (r_mito as f64 / 1e6 + 1e-3);
    ((1.25 * ratio.log2()).tanh() * 1e6).round() as i64
}

const MITO_TO_NUC: &str = "\
m1\t1000\t100\t300\t+\tchr1\t1000\t100\t200\t198\t200\t60\ttp:A:P\n\
m1\t1000\t400\t450\t-\tchr1\t1000\t500\t600\t95\t100\t60\ttp:A:P\n\
m1\t1000\t10\t60\t+\tchr2\t1000\t0\t50\t40\t100\t60\ttp:A:P\n\
m1\t1000\t800\t900\t+\tchr2\t1000\t0\t50\t90\t100\t60\ttp:A:P\n";

const NUC_TO_MITO: &str = "\
chr1\t1000\t100\t200\t+\tm1\t1000\t100\t300\t199\t200\t60\n\
chr2\t1000\t0\t50\t+\tm1\t1000\t800\t900\t91\t100\t60\n";

#[test]
fn calls_are_read_back_from_the_table() {
    let m2n = read_paf(MITO_TO_NUC, MIN_ID, MIN_LEN).unwrap();
    let n2m = read_paf(NUC_TO_MITO, MIN_ID, MIN_LEN).unwrap();
    assert_eq!((m2n.len(), n2m.len()), (3, 2));
    let pairs = pair_and_merge(&m2n, n2m, 50);
    let evidence = vec![
        LocusEvidence { depth_nuc: 30_000_000, depth_mito: 10_000_000, span_nuc: 800_000, span_mito: 100_000 },
        LocusEvidence { depth_nuc: 10_000_000, depth_mito: 30_000_000, span_nuc: 100_000, span_mito: 800_000 },
        LocusEvidence { depth_nuc: 30_000_000, depth_mito: 30_000_000, span_nuc: 500_000, span_mito: 500_000 },
    ];
    let (coverage, spans) = compute_coverage_and_spans_with_tools(&pairs, &evidence).unwrap();
    let contrasts: Vec<i64> =
        depth_ratios(&pairs, &coverage).into_iter().map(|(n, m)| contrast(n, m)).collect();
    let (_, class_tsv) =
        classify_pairs(&pairs, &coverage, &spans, &contrasts, Weights::default(), ClassifyParams::default())
            .unwrap();
    let calls = parse_calls_tsv_str(&class_tsv);
    assert_eq!(calls.len(), 3);
    assert_eq!(calls.get("P000001").map(String::as_str), Some("Likely_NUMT"));
    assert_eq!(calls.get("P000002").map(String::as_str), Some("Likely_NIMT"));
    assert_eq!(calls.get("P000003").map(String::as_str), Some("Ambiguous"));
}

#[test]
fn a_run_from_hits_to_summary() {
    let m2n = read_paf(MITO_TO_NUC, MIN_ID, MIN_LEN).unwrap();
    let n2m = read_paf(NUC_TO_MITO, MIN_ID, MIN_LEN).unwrap();
    let pairs = pair_and_merge(&m2n, n2m, 50);
    assert_eq!(pairs[0].aln_ident, 995_000);
    // reciprocal hits are matched by the names of the two sequences alone
    assert_eq!(pairs[1].aln_ident, 995_000);
    assert_eq!(pairs[2].aln_ident, 910_000);

    let depth = |d: u32| format!("x\t1\t{d}\nx\t2\t{d}\nx\t3\t{d}\n");
    // every read covers positions 1 to 2000 of its contig
    let view = |rname: &str, spanning: usize, short: usize| {
        let mut s = String::new();
        for _ in 0..spanning {
            s += &format!("r\t0\t{rname}\t1\t60\t2000M\n");
        }
        for _ in 0..short {
            s += &format!("r\t0\t{rname}\t1\t60\t1M\n");
        }
        s
    };
    let evidence = vec![
        locus_evidence(&pairs[0], 250, &depth(30), &depth(10), &view("chr1", 8, 2), &view("m1", 1, 9)),
        locus_evidence(&pairs[1], 250, &depth(10), &depth(30), &view("chr1", 1, 9), &view("m1", 8, 2)),
        locus_evidence(&pairs[2], 250, &depth(30), &depth(30), &view("chr2", 5, 5), &view("m1", 5, 5)),
    ];
    assert_eq!(
        evidence[0],
        LocusEvidence { depth_nuc: 30_000_000, depth_mito: 10_000_000, span_nuc: 800_000, span_mito: 100_000 }
    );
    let (coverage, spans) = compute_coverage_and_spans_with_tools(&pairs, &evidence).unwrap();
    assert_eq!((coverage.nuclear_median, coverage.mito_median), (30_000_000, 30_000_000));
    let ratios = depth_ratios(&pairs, &coverage);
    assert_eq!(ratios, vec![(1_000_000, 333_333), (333_333, 1_000_000), (1_000_000, 1_000_000)]);
    let contrasts: Vec<i64> = ratios.into_iter().map(|(n, m)| contrast(n, m)).collect();
    let (pairs_tsv, class_tsv) =
        classify_pairs(&pairs, &coverage, &spans, &contrasts, Weights::default(), ClassifyParams::default())
            .unwrap();
    assert_eq!(pairs_tsv.lines().count(), 4);
    assert!(pairs_tsv.lines().nth(1).unwrap().starts_with("P000001\tchr1\t100\t200\tm1\t100\t300\t200\t0.9950\t1.000\t0.333\t0.800\t0.100\t"));

    let calls = parse_calls_tsv_str(&class_tsv);
    let s = compute_percentages(1000, 2000, &pairs, &calls);
    let mut table = String::new();
    write_summary_tsv(&mut table, &s);
    assert_eq!(
        table,
        "metric\tvalue\n\
         n_pairs\t3\n\
         n_numt\t1\n\
         n_nimt\t1\n\
         nuclear_bp_total\t2000\n\
         nuclear_bp_numt\t100\n\
         nuclear_pct_numt\t5.000000\n\
         mito_bp_total\t1000\n\
         mito_bp_nimt\t50\n\
         mito_pct_nimt\t5.000000\n\
         mito_bp_covered_by_numt_homologs\t200\n\
         mito_pct_covered_by_numt_homologs\t20.000000\n\
         nuc_bp_covered_by_nimt_homologs\t100\n\
         nuc_pct_covered_by_nimt_homologs\t5.000000\n"
    );
}
