use onsm::io::bam::{compute_coverage_and_spans_with_tools, LocusEvidence};
use onsm::model::{ClassifyParams, CoverageSummary, PairedLocus, SpanSummary, Weights};
use onsm::scoring::{classify_pairs, scale_len, score_locus, Call, ClassifyError};

/// The signed depth contrast of two depth ratios held in millionths.
fn contrast(r_nuc: u128, r_mito: u128) -> i64 {
    let ratio = (r_nuc as f64 / 1e6 + 1e-3) / (r_mito as f64 / 1e6 + 1e-3);
    ((1.25 * ratio.log2()).tanh() * 1e6).round() as i64
}

fn locus(id: &str, aln_len: u32, aln_ident: u64) -> PairedLocus {
    PairedLocus {
        pair_id: id.into(),
        nuc_contig: "chr1".into(),
        nuc_start: 100,
        nuc_end: 200,
        mito_contig: "m1".into(),
        mito_start: 50,
        mito_end: 150,
        aln_len,
        aln_ident,
    }
}

fn summaries(
    pairs: &Vec<PairedLocus>,
    evidence: Vec<LocusEvidence>,
    medians: (u64, u64),
) -> (CoverageSummary, SpanSummary) {
    let (mut coverage, spans) = compute_coverage_and_spans_with_tools(pairs, &evidence).unwrap();
    coverage.nuclear_median = medians.0;
    coverage.mito_median = medians.1;
    (coverage, spans)
}

#[test]
fn favors_numt_when_nuclear_support_strong() {
    let pairs = vec![locus("P1", 5000, 980_000)];
    // rnuc=1.0, rmito=0.33
    let evidence = vec![LocusEvidence {
        depth_nuc: 30_000_000,
        depth_mito: 10_000_000,
        span_nuc: 800_000,
        span_mito: 100_000,
    }];
    let (cov, spans) = summaries(&pairs, evidence, (30_000_000, 30_000_000));
    let contrasts = vec![contrast(1_000_000, 333_333)];
    let (pairs_tsv, class_tsv) = classify_pairs(
        &pairs,
        &cov,
        &spans,
        &contrasts,
        Weights::default(),
        ClassifyParams::default(),
    )
    .unwrap();
    assert!(pairs_tsv.contains("score_numt"));
    assert!(class_tsv.contains("Likely_NUMT"));
}

#[test]
fn tables_hold_exact_values() {
    let pairs = vec![locus("X1", 5000, 980_000), locus("P000002", 1, 123_456), locus("X3", 5000, 980_000)];
    let evidence = vec![
        LocusEvidence { depth_nuc: 30_000_000, depth_mito: 10_000_000, span_nuc: 800_000, span_mito: 100_000 },
        LocusEvidence { depth_nuc: 105_000_000, depth_mito: 3, span_nuc: 999_999, span_mito: 1 },
    ];
    let two: Vec<PairedLocus> = pairs[..2].to_vec();
    let (cov, spans) = summaries(&two, evidence, (30_000_000, 30_000_000));
    let contrasts = vec![963_000, -2_000_000, 0];
    let (pairs_tsv, class_tsv) =
        classify_pairs(&pairs, &cov, &spans, &contrasts, Weights::default(), ClassifyParams::default()).unwrap();
    assert_eq!(
        pairs_tsv,
        "pair_id\tnuc_contig\tnuc_start\tnuc_end\tmito_contig\tmito_start\tmito_end\taln_len\taln_ident\tr_nuc\tr_mito\ts_nuc\ts_mito\tscore_numt\tscore_nimt\n\
         X1\tchr1\t100\t200\tm1\t50\t150\t5000\t0.9800\t1.000\t0.333\t0.800\t0.100\t1.0774\t-0.4374\n\
         P000002\tchr1\t100\t200\tm1\t50\t150\t1\t0.1235\t3.500\t0.000\t1.000\t0.000\t0.2809\t-0.2191\n\
         X3\tchr1\t100\t200\tm1\t50\t150\t5000\t0.9800\t0.000\t0.000\t0.000\t0.000\t0.3200\t0.3200\n"
    );
    assert_eq!(
        class_tsv,
        "pair_id\tcall\tconfidence\treason_codes\n\
         X1\tLikely_NUMT\t1.5148\tscore_difference\n\
         P000002\tLikely_NUMT\t0.5000\tscore_difference\n\
         X3\tAmbiguous\t0.0000\tdelta_below_threshold\n"
    );
}

#[test]
fn classification_wants_one_contrast_for_each_locus() {
    let pairs = vec![locus("X1", 5000, 980_000)];
    let (cov, spans) = summaries(&vec![], vec![], (0, 0));
    let r = classify_pairs(&pairs, &cov, &spans, &vec![], Weights::default(), ClassifyParams::default());
    assert_eq!(r, Err(ClassifyError::ContrastCount));
    let r = classify_pairs(&vec![], &cov, &spans, &vec![1], Weights::default(), ClassifyParams::default());
    assert_eq!(r, Err(ClassifyError::ContrastCount));
    let (pairs_tsv, class_tsv) =
        classify_pairs(&vec![], &cov, &spans, &vec![], Weights::default(), ClassifyParams::default()).unwrap();
    assert_eq!(pairs_tsv.lines().count(), 1);
    assert_eq!(class_tsv, "pair_id\tcall\tconfidence\treason_codes\n");
}

fn scenario(depth: (u64, u64), span: (u64, u64)) -> onsm::scoring::LocusScore {
    let r_nuc = depth.0 as u128 * 10_000;
    let r_mito = depth.1 as u128 * 10_000;
    score_locus(
        980_000,
        5000,
        depth,
        (100, 100),
        span,
        contrast(r_nuc, r_mito),
        Weights::default(),
        ClassifyParams::default(),
    )
}

#[test]
fn strong_nuclear_support_is_called_numt() {
    let sc = scenario((100, 33), (800_000, 100_000));
    assert_eq!((sc.r_nuc, sc.r_mito), (1_000_000, 330_000));
    assert_eq!(sc.call, Call::NUMT);
    assert_eq!(sc.call.as_str_and_reason(), ("Likely_NUMT", "score_difference"));
    assert!(sc.score_numt > sc.score_nimt);
    assert_eq!(sc.confidence as i128, sc.score_numt - sc.score_nimt);
}

#[test]
fn strong_mitochondrial_support_is_called_nimt() {
    let sc = scenario((33, 100), (100_000, 800_000));
    assert_eq!(sc.call, Call::NIMT);
    assert_eq!(sc.call.as_str_and_reason(), ("Likely_NIMT", "score_difference"));
    let mirror = scenario((100, 33), (800_000, 100_000));
    assert_eq!((sc.score_numt, sc.score_nimt), (mirror.score_nimt, mirror.score_numt));
}

#[test]
fn balanced_support_is_ambiguous() {
    let sc = scenario((100, 100), (500_000, 500_000));
    assert_eq!(sc.call, Call::Ambiguous);
    assert_eq!(sc.call.as_str_and_reason(), ("Ambiguous", "delta_below_threshold"));
    assert_eq!(sc.confidence, 0);
    assert_eq!(sc.score_numt, 320_000_000_000);
    // just below and just at the threshold
    let w = Weights { w_a: 0, w_l: 0, w_d: 0, w_s: 500_000 };
    let p = ClassifyParams::default();
    let below = score_locus(0, 0, (0, 0), (0, 0), (574_999, 500_000), 0, w, p);
    assert_eq!((below.confidence, below.call), (149_998_000_000, Call::Ambiguous));
    let at = score_locus(0, 0, (0, 0), (0, 0), (575_000, 500_000), 0, w, p);
    assert_eq!((at.confidence, at.call), (150_000_000_000, Call::NUMT));
    let at = score_locus(0, 0, (0, 0), (0, 0), (500_000, 575_000), 0, w, p);
    assert_eq!((at.confidence, at.call), (150_000_000_000, Call::NIMT));
}

#[test]
fn scores_follow_the_formula() {
    let sc = score_locus(
        980_000,
        5000,
        (30_000_000, 10_000_000),
        (30_000_000, 30_000_000),
        (800_000, 100_000),
        963_000,
        Weights::default(),
        ClassifyParams::default(),
    );
    assert_eq!((sc.a, sc.l), (980_000, 500_000));
    assert_eq!((sc.r_nuc, sc.r_mito), (1_000_000, 333_333));
    assert_eq!((sc.s_nuc, sc.s_mito), (800_000, 100_000));
    assert_eq!(sc.score_numt, 1_077_416_750_000);
    assert_eq!(sc.score_nimt, -437_416_750_000);
    assert_eq!(sc.confidence, 1_514_833_500_000);
    assert_eq!(sc.call, Call::NUMT);
    // the same inputs give the same result
    let again = score_locus(
        980_000,
        5000,
        (30_000_000, 10_000_000),
        (30_000_000, 30_000_000),
        (800_000, 100_000),
        963_000,
        Weights::default(),
        ClassifyParams::default(),
    );
    assert_eq!((again.score_numt, again.score_nimt, again.call), (sc.score_numt, sc.score_nimt, sc.call));
}

#[test]
fn signals_are_clamped() {
    let w = Weights { w_a: 1_000_000, w_l: 0, w_d: 1_000_000, w_s: 0 };
    let p = ClassifyParams { call_threshold: 0, highconf_threshold: 0 };
    // identity above one counts as one; a contrast beyond the bounds as the bound
    let sc = score_locus(5_000_000, 0, (7, 3), (2, 0), (0, 0), -2_000_000, w, p);
    assert_eq!(sc.a, 1_000_000);
    assert_eq!((sc.r_nuc, sc.r_mito), (3_500_000, 0));
    assert_eq!(sc.score_numt, 0);
    assert_eq!(sc.score_nimt, 2_000_000_000_000);
    let sc = score_locus(0, 0, (3, 1), (2, 2), (0, 0), i64::MAX, w, p);
    // depth terms: 1 - |1.5 - 1| = 0.5 on both sides
    assert_eq!((sc.r_nuc, sc.r_mito), (1_500_000, 500_000));
    assert_eq!((sc.score_numt, sc.score_nimt), (1_000_000_000_000, -1_000_000_000_000));
    let top = score_locus(u64::MAX, u32::MAX, (u64::MAX, u64::MAX), (1, 1), (u64::MAX, 0), i64::MIN,
        Weights { w_a: u32::MAX, w_l: u32::MAX, w_d: u32::MAX, w_s: u32::MAX }, p);
    assert_eq!(top.r_nuc, 18_446_744_073_709_551_615_000_000);
    assert_eq!(top.call, Call::NUMT);
}

#[test]
fn length_signal_saturates() {
    assert_eq!(scale_len(0), 0);
    assert_eq!(scale_len(5000), 500_000);
    assert_eq!(scale_len(15000), 750_000);
    assert_eq!(scale_len(1), 199);
    assert_eq!(scale_len(u32::MAX), 999_998);
}

#[test]
fn defaults_are_the_documented_constants() {
    let w = Weights::default();
    assert_eq!((w.w_a, w.w_l, w.w_d, w.w_s), (250_000, 150_000, 250_000, 250_000));
    let p = ClassifyParams::default();
    assert_eq!((p.call_threshold, p.highconf_threshold), (150_000, 300_000));
}
