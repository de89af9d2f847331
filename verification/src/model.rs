//! The data that the stages of the pipeline hand to each other.
//!
//! Fractions are whole numbers of millionths (see [`crate::fixed`]).

use vstd::hash_map::StringHashMap;
use vstd::prelude::*;

verus! {

/// Least identity of an alignment hit that is kept, in millionths.
pub const MIN_ID: u64 = 900_000;

/// Least alignment block length of a hit that is kept.
pub const MIN_LEN: u32 = 100;

/// Largest gap over which neighbouring hits would be merged.
pub const MERGE_GAP: u32 = 50;

/// Half-width of the window in which the local depth is taken.
pub const FLANK_BP: u32 = 500;

/// Half-width of the window that a read has to span.
pub const WIN_BP: u32 = 250;

/// Least margin between the two scores for a definite call, in millionths.
pub const CALL_THRESHOLD: i64 = 150_000;

/// Margin from which a call counts as highly confident, in millionths.
pub const HIGHCONF_THRESHOLD: i64 = 300_000;

/// Weight of the alignment identity, in millionths.
pub const W_A: u32 = 250_000;

/// Weight of the alignment length, in millionths.
pub const W_L: u32 = 150_000;

/// Weight of the depth consistency, in millionths.
pub const W_D: u32 = 250_000;

/// Weight of the spanning support, in millionths.
pub const W_S: u32 = 250_000;

/// A candidate locus: a nuclear interval and the mitochondrial interval that
/// aligns to it, both half-open and 0-based.
#[derive(Debug, Clone)]
pub struct PairedLocus {
    pub pair_id: String,
    pub nuc_contig: String,
    pub nuc_start: u32,
    pub nuc_end: u32,
    pub mito_contig: String,
    pub mito_start: u32,
    pub mito_end: u32,
    pub aln_len: u32,
    /// Alignment identity in millionths.
    pub aln_ident: u64,
}

/// What a [`PairedLocus`] holds, with names as sequences of characters.
pub ghost struct Locus {
    pub pair_id: Seq<char>,
    pub nuc_contig: Seq<char>,
    pub nuc_start: u32,
    pub nuc_end: u32,
    pub mito_contig: Seq<char>,
    pub mito_start: u32,
    pub mito_end: u32,
    pub aln_len: u32,
    pub aln_ident: u64,
}

impl View for PairedLocus {
    type V = Locus;

    open spec fn view(&self) -> Locus {
        Locus {
            pair_id: self.pair_id@,
            nuc_contig: self.nuc_contig@,
            nuc_start: self.nuc_start,
            nuc_end: self.nuc_end,
            mito_contig: self.mito_contig@,
            mito_start: self.mito_start,
            mito_end: self.mito_end,
            aln_len: self.aln_len,
            aln_ident: self.aln_ident,
        }
    }
}

/// The view of each locus of `v`.
pub open spec fn loci(v: Seq<PairedLocus>) -> Seq<Locus> {
    Seq::new(v.len(), |i: int| v[i]@)
}

/// Read depth around the loci, in millionths of a read.
///
/// `per_pair` maps a pair id to the local median depth on the nuclear and on
/// the mitochondrial side; the two medians are taken over those local values.
pub struct CoverageSummary {
    pub nuclear_median: u64,
    pub mito_median: u64,
    pub per_pair: StringHashMap<(u64, u64)>,
}

/// Spanning support of the loci: `per_pair` maps a pair id to the fraction of
/// reads that span the nuclear and the mitochondrial window, in millionths.
pub struct SpanSummary {
    pub per_pair: StringHashMap<(u64, u64)>,
}

/// Thresholds on the margin between the two scores, in millionths.
#[derive(Debug, Clone, Copy)]
pub struct ClassifyParams {
    pub call_threshold: i64,
    pub highconf_threshold: i64,
}

/// Weights of the four signals, in millionths.
#[derive(Debug, Clone, Copy)]
pub struct Weights {
    pub w_a: u32,
    pub w_l: u32,
    pub w_d: u32,
    pub w_s: u32,
}

impl Default for Weights {
    fn default() -> (w: Self)
        ensures
            w == (Weights { w_a: W_A, w_l: W_L, w_d: W_D, w_s: W_S }),
    {
        Weights { w_a: W_A, w_l: W_L, w_d: W_D, w_s: W_S }
    }
}

impl Default for ClassifyParams {
    fn default() -> (p: Self)
        ensures
            p == (ClassifyParams {
                call_threshold: CALL_THRESHOLD,
                highconf_threshold: HIGHCONF_THRESHOLD,
            }),
    {
        ClassifyParams { call_threshold: CALL_THRESHOLD, highconf_threshold: HIGHCONF_THRESHOLD }
    }
}

/// What a run was started with: the inputs and the thresholds in use.
#[derive(Debug, Clone)]
pub struct RunManifest {
    /// Path of the mitochondrial assembly.
    pub mito: String,
    /// Path of the nuclear assembly.
    pub nuclear: String,
    /// Paths of the read files.
    pub reads: Vec<String>,
    pub platform: String,
    pub threads: usize,
    /// Least identity of a hit that is kept, in millionths.
    pub min_id: u64,
    pub min_len: u32,
    pub merge_gap: u32,
    pub flank_bp: u32,
    pub win_bp: u32,
}

impl RunManifest {
    /// The manifest of a run with the given inputs and thresholds.
    pub fn new(
        mito: &str,
        nuclear: &str,
        reads: &Vec<String>,
        platform: &str,
        threads: usize,
        min_id: u64,
        min_len: u32,
        merge_gap: u32,
        flank_bp: u32,
        win_bp: u32,
    ) -> (m: Self)
        ensures
            m.mito@ == mito@,
            m.nuclear@ == nuclear@,
            m.reads.len() == reads.len(),
            forall|i: int| 0 <= i < reads.len() ==> (#[trigger] m.reads[i])@ == reads[i]@,
            m.platform@ == platform@,
            m.threads == threads,
            m.min_id == min_id,
            m.min_len == min_len,
            m.merge_gap == merge_gap,
            m.flank_bp == flank_bp,
            m.win_bp == win_bp,
    {
        RunManifest {
            mito: mito.to_owned(),
            nuclear: nuclear.to_owned(),
            reads: crate::text::copy_strings(reads),
            platform: platform.to_owned(),
            threads,
            min_id,
            min_len,
            merge_gap,
            flank_bp,
            win_bp,
        }
    }
}

} // verus!
