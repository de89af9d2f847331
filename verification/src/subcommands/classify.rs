//! The one-shot pipeline: map, pair, estimate, score, summarise.

use crate::model::{RunManifest, FLANK_BP, MERGE_GAP, MIN_ID, MIN_LEN, WIN_BP};
use vstd::prelude::*;

verus! {

/// The number of threads used when the machine does not say how many it has.
pub const FALLBACK_THREADS: usize = 4;

/// The largest number of threads that is chosen without being asked for.
pub const MAX_DEFAULT_THREADS: usize = 16;

/// The arguments of the pipeline.
#[derive(Debug, Clone)]
pub struct CmdClassify {
    /// Path of the mitochondrial assembly.
    pub mito: String,
    /// Path of the nuclear assembly.
    pub nuclear: String,
    /// Paths of the read files.
    pub reads: Vec<String>,
    /// Sequencing platform of the reads: `hifi` or `ont`.
    pub platform: String,
    /// Directory for the outputs.
    pub out: String,
    /// Path of the aligner, if not the one found on the search path.
    pub minimap2: Option<String>,
    /// Path of the alignment store tool, if not the one found on the search
    /// path.
    pub samtools: Option<String>,
    /// Number of threads, if not chosen from the machine.
    pub threads: Option<usize>,
    /// Whether the intermediate files are kept for a later rescoring.
    pub keep_tmp: bool,
}

/// The number of threads for a run: what was asked for; else what the
/// machine has, but at most 16; else 4.
pub open spec fn threads_of(asked: Option<usize>, available: Option<usize>) -> usize {
    match asked {
        Some(n) => n,
        None => {
            let n = match available {
                Some(n) => n,
                None => FALLBACK_THREADS,
            };
            if n < MAX_DEFAULT_THREADS {
                n
            } else {
                MAX_DEFAULT_THREADS
            }
        },
    }
}

impl CmdClassify {
    /// The number of threads for this run, on a machine that has
    /// `available` of them as far as it says.
    pub fn threads_for(&self, available: Option<usize>) -> (n: usize)
        ensures
            n == threads_of(self.threads, available),
    {
        match self.threads {
            Some(n) => n,
            None => {
                let n = match available {
                    Some(n) => n,
                    None => FALLBACK_THREADS,
                };
                if n < MAX_DEFAULT_THREADS {
                    n
                } else {
                    MAX_DEFAULT_THREADS
                }
            },
        }
    }

    /// The manifest of this run on `threads` threads: its inputs, and the
    /// fixed thresholds of the pipeline.
    pub fn manifest(&self, threads: usize) -> (m: RunManifest)
        ensures
            m.mito@ == self.mito@,
            m.nuclear@ == self.nuclear@,
            m.reads.len() == self.reads.len(),
            forall|i: int| 0 <= i < self.reads.len() ==> (#[trigger] m.reads[i])@ == self.reads[i]@,
            m.platform@ == self.platform@,
            m.threads == threads,
            m.min_id == MIN_ID,
            m.min_len == MIN_LEN,
            m.merge_gap == MERGE_GAP,
            m.flank_bp == FLANK_BP,
            m.win_bp == WIN_BP,
    {
        RunManifest::new(
            self.mito.as_str(),
            self.nuclear.as_str(),
            &self.reads,
            self.platform.as_str(),
            threads,
            MIN_ID,
            MIN_LEN,
            MERGE_GAP,
            FLANK_BP,
            WIN_BP,
        )
    }
}

} // verus!
