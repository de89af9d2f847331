//! The scoring engine: two competing scores for each locus and the call
//! that their margin decides.
//!
//! Scores, margins and confidences are whole numbers of millionths of a
//! millionth, since each is a sum of products of two fractions held in
//! millionths.

use crate::decimal::{digits, push_digits, push_rounded, rounded_text};
use crate::fixed::{clamp01, clamp01_spec, lemma_ratio_unit, ratio, ratio_of, SCALE};
use crate::model::{loci, ClassifyParams, CoverageSummary, Locus, PairedLocus, SpanSummary, Weights};
use vstd::hash_map::StringHashMap;
use vstd::prelude::*;

verus! {

/// The alignment length at which the length signal is one half.
pub const L50: u64 = 5_000;

/// The call made for one locus.
#[derive(Debug, Clone, Copy, PartialEq, Eq, Structural)]
#[allow(clippy::upper_case_acronyms)]
pub enum Call {
    NUMT,
    NIMT,
    Ambiguous,
}

impl Call {
    /// The name under which the call is reported.
    pub open spec fn name(self) -> Seq<char> {
        match self {
            Call::NUMT => "Likely_NUMT"@,
            Call::NIMT => "Likely_NIMT"@,
            Call::Ambiguous => "Ambiguous"@,
        }
    }

    /// The reason code reported with the call.
    pub open spec fn reason(self) -> Seq<char> {
        match self {
            Call::NUMT => "score_difference"@,
            Call::NIMT => "score_difference"@,
            Call::Ambiguous => "delta_below_threshold"@,
        }
    }

    /// The name of the call and its reason code.
    pub fn as_str_and_reason(&self) -> (r: (&'static str, &'static str))
        ensures
            r.0@ == self.name(),
            r.1@ == self.reason(),
    {
        match self {
            Call::NUMT => ("Likely_NUMT", "score_difference"),
            Call::NIMT => ("Likely_NIMT", "score_difference"),
            Call::Ambiguous => ("Ambiguous", "delta_below_threshold"),
        }
    }
}

/// The length signal: `len / (len + L50)`, in millionths, rounded down.
pub open spec fn scale_len_spec(len_bp: u32) -> nat {
    ratio(len_bp as nat, len_bp as nat + L50 as nat)
}

/// The depth-consistency signal of a depth ratio `r`: one where the local
/// depth equals the genome-wide median, falling off linearly to zero.
pub open spec fn depth_term(r: nat) -> int {
    clamp01_spec(SCALE - vstd::math::abs(r - SCALE))
}

/// A depth contrast brought into the range from -1 to 1.
pub open spec fn clamp_contrast(c: int) -> int {
    if c < -(SCALE as int) {
        -(SCALE as int)
    } else if c > SCALE {
        SCALE as int
    } else {
        c
    }
}

/// The call that a margin `diff` of the nuclear over the mitochondrial score
/// gives under a threshold held in millionths.
pub open spec fn call_of(diff: int, call_threshold: int) -> Call {
    if diff >= call_threshold * SCALE {
        Call::NUMT
    } else if -diff >= call_threshold * SCALE {
        Call::NIMT
    } else {
        Call::Ambiguous
    }
}

/// The signals, scores and call of one locus, as mathematical integers.
pub ghost struct Score {
    /// Identity signal, in millionths.
    pub a: int,
    /// Length signal, in millionths.
    pub l: int,
    /// Local over median depth on the nuclear side, in millionths.
    pub r_nuc: int,
    /// Local over median depth on the mitochondrial side, in millionths.
    pub r_mito: int,
    /// Spanning support on the nuclear side, in millionths.
    pub s_nuc: int,
    /// Spanning support on the mitochondrial side, in millionths.
    pub s_mito: int,
    pub score_numt: int,
    pub score_nimt: int,
    /// The size of the margin between the two scores.
    pub confidence: int,
    pub call: Call,
}

/// The score of a locus with the given identity and alignment length, local
/// depths `depth`, median depths `median` and span fractions `span` (each a
/// pair: nuclear side, mitochondrial side), and the given signed depth
/// contrast.
pub open spec fn score_of(
    ident: u64,
    len_bp: u32,
    depth: (u64, u64),
    median: (u64, u64),
    span: (u64, u64),
    contrast: i64,
    w: Weights,
    params: ClassifyParams,
) -> Score {
    let a = clamp01_spec(ident as int);
    let l = scale_len_spec(len_bp) as int;
    let r_nuc = ratio(depth.0 as nat, median.0 as nat);
    let r_mito = ratio(depth.1 as nat, median.1 as nat);
    let d_numt = depth_term(r_nuc);
    let d_nimt = depth_term(r_mito);
    let depth_contrast = clamp_contrast(contrast as int);
    let span_contrast = span.0 - span.1;
    let base = w.w_a * a + w.w_l * l;
    let pro_numt = w.w_d * d_numt + w.w_s * span.0;
    let pro_nimt = w.w_d * d_nimt + w.w_s * span.1;
    let boost = w.w_d * depth_contrast + w.w_s * span_contrast;
    let score_numt = base + pro_numt - pro_nimt + boost;
    let score_nimt = base + pro_nimt - pro_numt - boost;
    let diff = score_numt - score_nimt;
    Score {
        a,
        l,
        r_nuc: r_nuc as int,
        r_mito: r_mito as int,
        s_nuc: span.0 as int,
        s_mito: span.1 as int,
        score_numt,
        score_nimt,
        confidence: if diff >= 0 {
            diff
        } else {
            -diff
        },
        call: call_of(diff, params.call_threshold as int),
    }
}

/// The signals, scores and call of one locus.
#[derive(Debug, Clone, Copy)]
pub struct LocusScore {
    /// Identity signal, in millionths.
    pub a: u64,
    /// Length signal, in millionths.
    pub l: u64,
    /// Local over median depth on the nuclear side, in millionths.
    pub r_nuc: u128,
    /// Local over median depth on the mitochondrial side, in millionths.
    pub r_mito: u128,
    /// Spanning support on the nuclear side, in millionths.
    pub s_nuc: u64,
    /// Spanning support on the mitochondrial side, in millionths.
    pub s_mito: u64,
    pub score_numt: i128,
    pub score_nimt: i128,
    /// The size of the margin between the two scores.
    pub confidence: u128,
    pub call: Call,
}

impl View for LocusScore {
    type V = Score;

    open spec fn view(&self) -> Score {
        Score {
            a: self.a as int,
            l: self.l as int,
            r_nuc: self.r_nuc as int,
            r_mito: self.r_mito as int,
            s_nuc: self.s_nuc as int,
            s_mito: self.s_mito as int,
            score_numt: self.score_numt as int,
            score_nimt: self.score_nimt as int,
            confidence: self.confidence as int,
            call: self.call,
        }
    }
}

/// The length signal of an alignment of `len_bp` bases.
pub fn scale_len(len_bp: u32) -> (l: u64)
    ensures
        l == scale_len_spec(len_bp),
        l < SCALE,
{
    assert(len_bp as u128 * SCALE as u128 <= 0xFFFF_FFFF * 1_000_000) by (nonlinear_arith)
        requires
            len_bp <= 0xFFFF_FFFF,
            SCALE == 1_000_000,
    ;
    let num: u128 = (len_bp as u128) * (SCALE as u128);
    let den: u128 = len_bp as u128 + L50 as u128;
    assert(num / den < SCALE as u128) by (nonlinear_arith)
        requires
            num == len_bp as u128 * SCALE as u128,
            den == len_bp as u128 + 5000,
    ;
    (num / den) as u64
}

/// The depth-consistency signal of a depth ratio.
fn depth_consistency(r: u128) -> (d: u64)
    ensures
        d == depth_term(r as nat),
        d <= SCALE,
{
    if r >= 2 * (SCALE as u128) {
        0
    } else if r >= SCALE as u128 {
        (2 * (SCALE as u128) - r) as u64
    } else {
        r as u64
    }
}

/// The product of a weight and a signal.
fn weighted(w: u32, x: i128) -> (r: i128)
    requires
        -0x1_0000_0000_0000_0000 <= x <= 0x1_0000_0000_0000_0000,
    ensures
        r == w * x,
        -0x1_0000_0000_0000_0000_0000_0000 <= r <= 0x1_0000_0000_0000_0000_0000_0000,
{
    assert(-0x1_0000_0000_0000_0000_0000_0000 <= w * x <= 0x1_0000_0000_0000_0000_0000_0000)
        by (nonlinear_arith)
        requires
            0 <= w <= 0xFFFF_FFFF,
            -0x1_0000_0000_0000_0000 <= x <= 0x1_0000_0000_0000_0000,
    ;
    (w as i128) * x
}

/// Scores one locus from its signals.
///
/// `depth`, `median` and `span` are pairs: nuclear side first, mitochondrial
/// side second.  `contrast` is the signed depth contrast in millionths, the
/// hyperbolic tangent of 1.25 times the binary logarithm of
/// `(r_nuc + 0.001) / (r_mito + 0.001)`; a value outside -1 to 1 counts as the
/// nearer bound.
pub fn score_locus(
    ident: u64,
    len_bp: u32,
    depth: (u64, u64),
    median: (u64, u64),
    span: (u64, u64),
    contrast: i64,
    w: Weights,
    params: ClassifyParams,
) -> (sc: LocusScore)
    ensures
        sc@ == score_of(ident, len_bp, depth, median, span, contrast, w, params),
{
    let a = clamp01(ident as i128);
    let l = scale_len(len_bp);
    let r_nuc = ratio_of(depth.0, median.0);
    let r_mito = ratio_of(depth.1, median.1);
    let d_numt = depth_consistency(r_nuc);
    let d_nimt = depth_consistency(r_mito);
    let depth_contrast: i128 = if contrast < -(SCALE as i64) {
        -(SCALE as i128)
    } else if contrast > SCALE as i64 {
        SCALE as i128
    } else {
        contrast as i128
    };
    let span_contrast: i128 = span.0 as i128 - span.1 as i128;
    let base: i128 = weighted(w.w_a, a as i128) + weighted(w.w_l, l as i128);
    let pro_numt: i128 = weighted(w.w_d, d_numt as i128) + weighted(w.w_s, span.0 as i128);
    let pro_nimt: i128 = weighted(w.w_d, d_nimt as i128) + weighted(w.w_s, span.1 as i128);
    let boost: i128 = weighted(w.w_d, depth_contrast) + weighted(w.w_s, span_contrast);
    let score_numt: i128 = base + pro_numt - pro_nimt + boost;
    let score_nimt: i128 = base + pro_nimt - pro_numt - boost;
    let diff: i128 = score_numt - score_nimt;
    let bar: i128 = (params.call_threshold as i128) * (SCALE as i128);
    let call = if diff >= bar {
        Call::NUMT
    } else if -diff >= bar {
        Call::NIMT
    } else {
        Call::Ambiguous
    };
    let confidence: u128 = if diff >= 0 {
        diff as u128
    } else {
        (-diff) as u128
    };
    LocusScore {
        a,
        l,
        r_nuc,
        r_mito,
        s_nuc: span.0,
        s_mito: span.1,
        score_numt,
        score_nimt,
        confidence,
        call,
    }
}

/// Every signal that enters the scores lies between 0 and 1: the identity,
/// the length signal, which stays below 1, the two depth terms and the size
/// of the depth contrast.
pub proof fn lemma_signals_unit(ident: u64, len_bp: u32, r: nat, contrast: int)
    ensures
        0 <= clamp01_spec(ident as int) <= SCALE,
        0 <= scale_len_spec(len_bp) < SCALE,
        0 <= depth_term(r) <= SCALE,
        r == SCALE ==> depth_term(r) == SCALE,
        r == 0 || r >= 2 * SCALE ==> depth_term(r) == 0,
        -(SCALE as int) <= clamp_contrast(contrast) <= SCALE,
{
    lemma_ratio_unit(len_bp as nat, len_bp as nat + L50 as nat);
}

/// The call with the two sides exchanged.
pub open spec fn mirrored(c: Call) -> Call {
    match c {
        Call::NUMT => Call::NIMT,
        Call::NIMT => Call::NUMT,
        Call::Ambiguous => Call::Ambiguous,
    }
}

/// The margin between the two scores is twice what speaks for the nuclear
/// side less what speaks for the mitochondrial side, and the identity and
/// the length of the alignment have no part in it.
pub proof fn lemma_margin(
    ident: u64,
    len_bp: u32,
    depth: (u64, u64),
    median: (u64, u64),
    span: (u64, u64),
    contrast: i64,
    w: Weights,
    params: ClassifyParams,
)
    ensures
        ({
            let sc = score_of(ident, len_bp, depth, median, span, contrast, w, params);
            sc.score_numt - sc.score_nimt == 2 * (w.w_d * (depth_term(sc.r_nuc as nat) - depth_term(
                sc.r_mito as nat,
            ) + clamp_contrast(contrast as int)) + 2 * (w.w_s * (span.0 - span.1)))
        }),
{
    let sc = score_of(ident, len_bp, depth, median, span, contrast, w, params);
    let dn = depth_term(sc.r_nuc as nat);
    let dm = depth_term(sc.r_mito as nat);
    let dc = clamp_contrast(contrast as int);
    let wd = w.w_d as int;
    let ws = w.w_s as int;
    let s0 = span.0 as int;
    let s1 = span.1 as int;
    assert(wd * (dn - dm + dc) == wd * dn - wd * dm + wd * dc) by (nonlinear_arith);
    assert(ws * (s0 - s1) == ws * s0 - ws * s1) by (nonlinear_arith);
}

/// Exchanging the two sides exchanges the two scores: with the depths, the
/// medians and the span fractions of the two sides exchanged and the sign of
/// the contrast turned, each score becomes the other, and a call for one
/// side becomes the call for the other, as long as the threshold is above
/// zero.
pub proof fn lemma_scores_mirror(
    ident: u64,
    len_bp: u32,
    depth: (u64, u64),
    median: (u64, u64),
    span: (u64, u64),
    contrast: i64,
    w: Weights,
    params: ClassifyParams,
)
    requires
        contrast > i64::MIN,
    ensures
        ({
            let sc = score_of(ident, len_bp, depth, median, span, contrast, w, params);
            let other = score_of(
                ident,
                len_bp,
                (depth.1, depth.0),
                (median.1, median.0),
                (span.1, span.0),
                (-contrast) as i64,
                w,
                params,
            );
            &&& other.score_numt == sc.score_nimt
            &&& other.score_nimt == sc.score_numt
            &&& other.confidence == sc.confidence
            &&& params.call_threshold > 0 ==> other.call == mirrored(sc.call)
        }),
{
    let sc = score_of(ident, len_bp, depth, median, span, contrast, w, params);
    let dc = clamp_contrast(contrast as int);
    let wd = w.w_d as int;
    let ws = w.w_s as int;
    let s0 = span.0 as int;
    let s1 = span.1 as int;
    assert(clamp_contrast(-(contrast as int)) == -dc);
    assert(wd * (-dc) == -(wd * dc)) by (nonlinear_arith);
    assert(ws * (s1 - s0) == -(ws * (s0 - s1))) by (nonlinear_arith);
    if params.call_threshold > 0 {
        assert(params.call_threshold * SCALE > 0) by (nonlinear_arith)
            requires
                params.call_threshold > 0,
                SCALE == 1_000_000,
        ;
    }
}

/// The inputs decide the result: two results that meet the contract of the
/// scoring for the same inputs are the same.
pub proof fn lemma_score_is_determined(a: LocusScore, b: LocusScore, s: Score)
    requires
        a@ == s,
        b@ == s,
    ensures
        a == b,
{
}

/// The pair that `m` holds for `key`; a pair of zeros where it holds none.
pub open spec fn lookup(m: Map<Seq<char>, (u64, u64)>, key: Seq<char>) -> (u64, u64) {
    if m.contains_key(key) {
        m[key]
    } else {
        (0u64, 0u64)
    }
}

/// The score of the locus `p` under the given depths, spans and contrast.
pub open spec fn locus_score(
    p: Locus,
    depths: Map<Seq<char>, (u64, u64)>,
    median: (u64, u64),
    spans: Map<Seq<char>, (u64, u64)>,
    contrast: i64,
    w: Weights,
    params: ClassifyParams,
) -> Score {
    score_of(
        p.aln_ident,
        p.aln_len,
        lookup(depths, p.pair_id),
        median,
        lookup(spans, p.pair_id),
        contrast,
        w,
        params,
    )
}

/// The text of a score or margin `x` with four digits after the point.
pub open spec fn score_text(x: int) -> Seq<char> {
    rounded_text(x < 0, vstd::math::abs(x) as nat, 8, 4)
}

/// The first line of the table of features and scores.
pub open spec fn pairs_header() -> Seq<char> {
    "pair_id\tnuc_contig\tnuc_start\tnuc_end\tmito_contig\tmito_start\tmito_end\taln_len\taln_ident\tr_nuc\tr_mito\ts_nuc\ts_mito\tscore_numt\tscore_nimt\n"@
}

/// The first line of the table of calls.
pub open spec fn class_header() -> Seq<char> {
    "pair_id\tcall\tconfidence\treason_codes\n"@
}

/// `s` followed by a tab.
pub open spec fn cell(s: Seq<char>) -> Seq<char> {
    s + seq!['\t']
}

/// The cells of a line that say where the locus `p` lies.
pub open spec fn locus_cells(p: Locus) -> Seq<char> {
    cell(p.pair_id) + cell(p.nuc_contig) + cell(digits(p.nuc_start as nat)) + cell(
        digits(p.nuc_end as nat),
    ) + cell(p.mito_contig) + cell(digits(p.mito_start as nat)) + cell(digits(p.mito_end as nat))
        + cell(digits(p.aln_len as nat))
}

/// The cells of a line that hold the signals of a locus: the identity with
/// four digits after the point, the depth ratios and span fractions with
/// three.
pub open spec fn signal_cells(sc: Score) -> Seq<char> {
    cell(rounded_text(false, sc.a as nat, 2, 4)) + cell(rounded_text(false, sc.r_nuc as nat, 3, 3))
        + cell(rounded_text(false, sc.r_mito as nat, 3, 3)) + cell(
        rounded_text(false, sc.s_nuc as nat, 3, 3),
    ) + cell(rounded_text(false, sc.s_mito as nat, 3, 3))
}

/// The line of the table of features and scores for the locus `p`.
pub open spec fn pairs_row(p: Locus, sc: Score) -> Seq<char> {
    locus_cells(p) + signal_cells(sc) + cell(score_text(sc.score_numt)) + score_text(sc.score_nimt)
        + seq!['\n']
}

/// The line of the table of calls for the locus `p`.
pub open spec fn class_row(p: Locus, sc: Score) -> Seq<char> {
    cell(p.pair_id) + cell(sc.call.name()) + cell(score_text(sc.confidence)) + sc.call.reason()
        + seq!['\n']
}

/// The score of each locus, in the order of `pairs`, with the depth
/// contrast of each locus taken from `contrasts`.
pub open spec fn scores_of(
    pairs: Seq<Locus>,
    depths: Map<Seq<char>, (u64, u64)>,
    median: (u64, u64),
    spans: Map<Seq<char>, (u64, u64)>,
    contrasts: Seq<i64>,
    w: Weights,
    params: ClassifyParams,
) -> Seq<Score>
    recommends
        pairs.len() == contrasts.len(),
{
    Seq::new(
        pairs.len(),
        |i: int| locus_score(pairs[i], depths, median, spans, contrasts[i], w, params),
    )
}

/// The lines of the table of features and scores for the first `n` loci.
pub open spec fn pairs_rows(pairs: Seq<Locus>, scores: Seq<Score>, n: nat) -> Seq<char>
    recommends
        n <= pairs.len() == scores.len(),
    decreases n,
{
    if n == 0 {
        Seq::empty()
    } else {
        pairs_rows(pairs, scores, (n - 1) as nat) + pairs_row(pairs[n - 1], scores[n - 1])
    }
}

/// The lines of the table of calls for the first `n` loci.
pub open spec fn class_rows(pairs: Seq<Locus>, scores: Seq<Score>, n: nat) -> Seq<char>
    recommends
        n <= pairs.len() == scores.len(),
    decreases n,
{
    if n == 0 {
        Seq::empty()
    } else {
        class_rows(pairs, scores, (n - 1) as nat) + class_row(pairs[n - 1], scores[n - 1])
    }
}

/// The table of features and scores for the first `n` loci: the header line
/// and one line for each locus.
pub open spec fn pairs_table(pairs: Seq<Locus>, scores: Seq<Score>, n: nat) -> Seq<char> {
    pairs_header() + pairs_rows(pairs, scores, n)
}

/// The table of calls for the first `n` loci: the header line and one line
/// for each locus.
pub open spec fn class_table(pairs: Seq<Locus>, scores: Seq<Score>, n: nat) -> Seq<char> {
    class_header() + class_rows(pairs, scores, n)
}

/// Texts put one after another give the same text however they are grouped.
pub proof fn lemma_concat_assoc(a: Seq<char>, b: Seq<char>, c: Seq<char>)
    ensures
        a + (b + c) == (a + b) + c,
{
    assert(a + (b + c) =~= (a + b) + c);
}

/// One more locus adds its line at the end of each table.
pub proof fn lemma_tables_grow(pairs: Seq<Locus>, scores: Seq<Score>, n: nat)
    ensures
        pairs_table(pairs, scores, n + 1) == pairs_table(pairs, scores, n) + pairs_row(
            pairs[n as int],
            scores[n as int],
        ),
        class_table(pairs, scores, n + 1) == class_table(pairs, scores, n) + class_row(
            pairs[n as int],
            scores[n as int],
        ),
{
    let p_before = pairs_rows(pairs, scores, n);
    let c_before = class_rows(pairs, scores, n);
    let p_row = pairs_row(pairs[n as int], scores[n as int]);
    let c_row = class_row(pairs[n as int], scores[n as int]);
    assert(pairs_rows(pairs, scores, n + 1) == p_before + p_row);
    assert(class_rows(pairs, scores, n + 1) == c_before + c_row);
    lemma_concat_assoc(pairs_header(), p_before, p_row);
    lemma_concat_assoc(class_header(), c_before, c_row);
}

/// Why a classification was refused.
#[derive(Debug, Clone, Copy, PartialEq, Eq, Structural)]
pub enum ClassifyError {
    /// There is not one depth contrast for each locus.
    ContrastCount,
}

/// The pair that `m` holds for `key`; a pair of zeros where it holds none.
fn pair_for(m: &StringHashMap<(u64, u64)>, key: &String) -> (r: (u64, u64))
    ensures
        r == lookup(m@, key@),
{
    match m.get(key.as_str()) {
        Some(v) => *v,
        None => (0, 0),
    }
}

/// Appends `s` and a tab to `out`.
fn push_text_cell(out: &mut String, s: &str)
    ensures
        final(out)@ == old(out)@ + cell(s@),
{
    out.append(s);
    out.push('\t');
    assert(out@ =~= old(out)@ + cell(s@));
}

/// Appends the decimal digits of `n` and a tab to `out`.
fn push_number_cell(out: &mut String, n: u32)
    ensures
        final(out)@ == old(out)@ + cell(digits(n as nat)),
{
    push_digits(out, n as u128);
    out.push('\t');
    assert(out@ =~= old(out)@ + cell(digits(n as nat)));
}

/// Appends to `out` the text of `m / 10^(drop + keep)` rounded to `keep`
/// digits after the point, and a tab.
fn push_rounded_cell(out: &mut String, m: u128, drop: u32, keep: u32)
    requires
        drop <= 38,
        keep <= 38,
    ensures
        final(out)@ == old(out)@ + cell(rounded_text(false, m as nat, drop as nat, keep as nat)),
{
    push_rounded(out, false, m, drop, keep);
    out.push('\t');
    assert(out@ =~= old(out)@ + cell(rounded_text(false, m as nat, drop as nat, keep as nat)));
}

/// Appends to `out` the text of a score or margin with four digits after
/// the point.
fn push_score(out: &mut String, x: i128)
    ensures
        final(out)@ == old(out)@ + score_text(x as int),
{
    if x < 0 {
        let magnitude: u128 = (-(x + 1)) as u128 + 1;
        push_rounded(out, true, magnitude, 8, 4);
    } else {
        push_rounded(out, false, x as u128, 8, 4);
    }
}

/// Appends to `out` the cells that say where the locus `p` lies.
fn push_locus_cells(out: &mut String, p: &PairedLocus)
    ensures
        final(out)@ == old(out)@ + locus_cells(p@),
{
    push_text_cell(out, p.pair_id.as_str());
    let ghost mut row = cell(p.pair_id@);
    push_text_cell(out, p.nuc_contig.as_str());
    proof {
        row = row + cell(p.nuc_contig@);
        assert(out@ =~= old(out)@ + row);
    }
    push_number_cell(out, p.nuc_start);
    proof {
        row = row + cell(digits(p.nuc_start as nat));
        assert(out@ =~= old(out)@ + row);
    }
    push_number_cell(out, p.nuc_end);
    proof {
        row = row + cell(digits(p.nuc_end as nat));
        assert(out@ =~= old(out)@ + row);
    }
    push_text_cell(out, p.mito_contig.as_str());
    proof {
        row = row + cell(p.mito_contig@);
        assert(out@ =~= old(out)@ + row);
    }
    push_number_cell(out, p.mito_start);
    proof {
        row = row + cell(digits(p.mito_start as nat));
        assert(out@ =~= old(out)@ + row);
    }
    push_number_cell(out, p.mito_end);
    proof {
        row = row + cell(digits(p.mito_end as nat));
        assert(out@ =~= old(out)@ + row);
    }
    push_number_cell(out, p.aln_len);
    proof {
        row = row + cell(digits(p.aln_len as nat));
        assert(out@ =~= old(out)@ + row);
    }
}

/// Appends to `out` the cells that hold the signals of a locus.
fn push_signal_cells(out: &mut String, sc: &LocusScore)
    ensures
        final(out)@ == old(out)@ + signal_cells(sc@),
{
    push_rounded_cell(out, sc.a as u128, 2, 4);
    let ghost mut row = cell(rounded_text(false, sc.a as nat, 2, 4));
    push_rounded_cell(out, sc.r_nuc, 3, 3);
    proof {
        row = row + cell(rounded_text(false, sc.r_nuc as nat, 3, 3));
        assert(out@ =~= old(out)@ + row);
    }
    push_rounded_cell(out, sc.r_mito, 3, 3);
    proof {
        row = row + cell(rounded_text(false, sc.r_mito as nat, 3, 3));
        assert(out@ =~= old(out)@ + row);
    }
    push_rounded_cell(out, sc.s_nuc as u128, 3, 3);
    proof {
        row = row + cell(rounded_text(false, sc.s_nuc as nat, 3, 3));
        assert(out@ =~= old(out)@ + row);
    }
    push_rounded_cell(out, sc.s_mito as u128, 3, 3);
    proof {
        row = row + cell(rounded_text(false, sc.s_mito as nat, 3, 3));
        assert(out@ =~= old(out)@ + row);
    }
}

/// Appends to `out` the text of a score with four digits after the point,
/// and a tab.
fn push_score_cell(out: &mut String, x: i128)
    ensures
        final(out)@ == old(out)@ + cell(score_text(x as int)),
{
    push_score(out, x);
    out.push('\t');
    assert(out@ =~= old(out)@ + cell(score_text(x as int)));
}

/// Appends a line feed to `out`.
fn push_line_end(out: &mut String)
    ensures
        final(out)@ == old(out)@ + seq!['\n'],
{
    out.push('\n');
    assert(out@ =~= old(out)@ + seq!['\n']);
}

/// Appends the line of the table of features and scores for `p` to `out`.
fn push_pairs_row(out: &mut String, p: &PairedLocus, sc: &LocusScore)
    ensures
        final(out)@ == old(out)@ + pairs_row(p@, sc@),
{
    let ghost locus = locus_cells(p@);
    let ghost signals = signal_cells(sc@);
    let ghost numt = cell(score_text(sc.score_numt as int));
    let ghost nimt = score_text(sc.score_nimt as int);
    push_locus_cells(out, p);
    push_signal_cells(out, sc);
    proof {
        lemma_concat_assoc(old(out)@, locus, signals);
    }
    push_score_cell(out, sc.score_numt);
    proof {
        lemma_concat_assoc(old(out)@, locus + signals, numt);
    }
    push_score(out, sc.score_nimt);
    proof {
        lemma_concat_assoc(old(out)@, locus + signals + numt, nimt);
    }
    push_line_end(out);
    proof {
        lemma_concat_assoc(old(out)@, locus + signals + numt + nimt, seq!['\n']);
    }
}

/// Appends the line of the table of calls for `p` to `out`.
fn push_class_row(out: &mut String, p: &PairedLocus, sc: &LocusScore)
    ensures
        final(out)@ == old(out)@ + class_row(p@, sc@),
{
    let (name, reason) = sc.call.as_str_and_reason();
    push_text_cell(out, p.pair_id.as_str());
    let ghost mut row = cell(p.pair_id@);
    push_text_cell(out, name);
    proof {
        row = row + cell(sc.call.name());
        assert(out@ =~= old(out)@ + row);
    }
    push_rounded_cell(out, sc.confidence, 8, 4);
    proof {
        row = row + cell(score_text(sc.confidence as int));
        assert(out@ =~= old(out)@ + row);
    }
    out.append(reason);
    proof {
        row = row + sc.call.reason();
        assert(out@ =~= old(out)@ + row);
    }
    out.push('\n');
    proof {
        row = row + seq!['\n'];
        assert(out@ =~= old(out)@ + row);
    }
}

/// The depth ratios of each locus, nuclear side first: its local depth over
/// the median depth, in millionths, and 0 where the median is 0.
pub open spec fn ratios_of(
    pairs: Seq<Locus>,
    depths: Map<Seq<char>, (u64, u64)>,
    median: (u64, u64),
) -> Seq<(u128, u128)> {
    Seq::new(
        pairs.len(),
        |i: int|
            (
                ratio(lookup(depths, pairs[i].pair_id).0 as nat, median.0 as nat) as u128,
                ratio(lookup(depths, pairs[i].pair_id).1 as nat, median.1 as nat) as u128,
            ),
    )
}

/// The depth ratios of each locus, in the order of `pairs`: what the signed
/// depth contrast of a locus is taken from.
pub fn depth_ratios(pairs: &Vec<PairedLocus>, coverage: &CoverageSummary) -> (r: Vec<(u128, u128)>)
    ensures
        r@ == ratios_of(
            loci(pairs@),
            coverage.per_pair@,
            (coverage.nuclear_median, coverage.mito_median),
        ),
{
    let mut r: Vec<(u128, u128)> = Vec::new();
    let mut i: usize = 0;
    while i < pairs.len()
        invariant
            i <= pairs.len(),
            r.len() == i,
            forall|k: int|
                0 <= k < i ==> #[trigger] r[k] == ratios_of(
                    loci(pairs@),
                    coverage.per_pair@,
                    (coverage.nuclear_median, coverage.mito_median),
                )[k],
        decreases pairs.len() - i,
    {
        let depth = pair_for(&coverage.per_pair, &pairs[i].pair_id);
        assert(loci(pairs@)[i as int] == pairs[i as int]@);
        r.push((ratio_of(depth.0, coverage.nuclear_median), ratio_of(depth.1, coverage.mito_median)));
        i += 1;
    }
    assert(r@ =~= ratios_of(
        loci(pairs@),
        coverage.per_pair@,
        (coverage.nuclear_median, coverage.mito_median),
    ));
    r
}

/// Scores and calls every locus, and writes the two tables: the features and
/// scores, and the calls.
///
/// `contrasts` holds the signed depth contrast of each locus, in the order of
/// `pairs` and in millionths (see [`score_locus`]).  A locus without an entry
/// in `coverage` or in `spans` counts with depths or span fractions of zero.
pub fn classify_pairs(
    pairs: &Vec<PairedLocus>,
    coverage: &CoverageSummary,
    spans: &SpanSummary,
    contrasts: &Vec<i64>,
    w: Weights,
    params: ClassifyParams,
) -> (r: Result<(String, String), ClassifyError>)
    ensures
        r is Ok <==> contrasts.len() == pairs.len(),
        r is Err ==> r == Err::<(String, String), ClassifyError>(ClassifyError::ContrastCount),
        r is Ok ==> r->Ok_0.0@ == pairs_table(
            loci(pairs@),
            scores_of(
                loci(pairs@),
                coverage.per_pair@,
                (coverage.nuclear_median, coverage.mito_median),
                spans.per_pair@,
                contrasts@,
                w,
                params,
            ),
            pairs.len() as nat,
        ),
        r is Ok ==> r->Ok_0.1@ == class_table(
            loci(pairs@),
            scores_of(
                loci(pairs@),
                coverage.per_pair@,
                (coverage.nuclear_median, coverage.mito_median),
                spans.per_pair@,
                contrasts@,
                w,
                params,
            ),
            pairs.len() as nat,
        ),
{
    if contrasts.len() != pairs.len() {
        return Err(ClassifyError::ContrastCount);
    }
    let median = (coverage.nuclear_median, coverage.mito_median);
    let mut pairs_tsv = String::from_str(
        "pair_id\tnuc_contig\tnuc_start\tnuc_end\tmito_contig\tmito_start\tmito_end\taln_len\taln_ident\tr_nuc\tr_mito\ts_nuc\ts_mito\tscore_numt\tscore_nimt\n",
    );
    let mut class_tsv = String::from_str("pair_id\tcall\tconfidence\treason_codes\n");
    let ghost all = loci(pairs@);
    let ghost scores = scores_of(
        all,
        coverage.per_pair@,
        median,
        spans.per_pair@,
        contrasts@,
        w,
        params,
    );
    assert(pairs_tsv@ =~= pairs_table(all, scores, 0));
    assert(class_tsv@ =~= class_table(all, scores, 0));
    let mut i: usize = 0;
    while i < pairs.len()
        invariant
            i <= pairs.len() == contrasts.len(),
            all == loci(pairs@),
            median == (coverage.nuclear_median, coverage.mito_median),
            scores == scores_of(
                all,
                coverage.per_pair@,
                median,
                spans.per_pair@,
                contrasts@,
                w,
                params,
            ),
            pairs_tsv@ == pairs_table(all, scores, i as nat),
            class_tsv@ == class_table(all, scores, i as nat),
        decreases pairs.len() - i,
    {
        let p = &pairs[i];
        let depth = pair_for(&coverage.per_pair, &p.pair_id);
        let span = pair_for(&spans.per_pair, &p.pair_id);
        let sc = score_locus(p.aln_ident, p.aln_len, depth, median, span, contrasts[i], w, params);
        proof {
            assert(all[i as int] == p@);
            assert(scores[i as int] == sc@);
            lemma_tables_grow(all, scores, i as nat);
        }
        push_pairs_row(&mut pairs_tsv, p, &sc);
        push_class_row(&mut class_tsv, p, &sc);
        i += 1;
    }
    Ok((pairs_tsv, class_tsv))
}

} // verus!
