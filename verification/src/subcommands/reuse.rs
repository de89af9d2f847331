//! Rescoring from the intermediate files of an earlier run.

use vstd::prelude::*;

verus! {

/// The arguments of a rescoring.
#[derive(Debug, Clone)]
pub struct CmdReuse {
    /// Output directory of the earlier run.
    pub from: String,
    /// Directory for the rescored outputs.
    pub out_dir: String,
    /// Path of the alignment store tool, if not the one found on the search
    /// path.
    pub samtools: Option<String>,
    /// Path of the aligner, if not the one found on the search path.
    pub minimap2: Option<String>,
}

/// The intermediate files that a rescoring needs, in the order in which
/// they are looked for.
pub open spec fn artifact_names() -> Seq<Seq<char>> {
    seq!["mito_to_nuc.paf"@, "nuc_to_mito.paf"@, "reads_to_nuc.bam"@, "reads_to_mito.bam"@]
}

/// The first position at or after `i` whose file is not there, if any.
pub open spec fn first_absent(present: Seq<bool>, i: int) -> Option<int>
    decreases present.len() - i,
{
    if i >= present.len() || i < 0 {
        None
    } else if !present[i] {
        Some(i)
    } else {
        first_absent(present, i + 1)
    }
}

impl CmdReuse {
    /// The names of the intermediate files that a rescoring needs.
    pub fn artifacts() -> (names: [&'static str; 4])
        ensures
            names@.len() == 4,
            forall|i: int| 0 <= i < 4 ==> (#[trigger] names@[i])@ == artifact_names()[i],
    {
        ["mito_to_nuc.paf", "nuc_to_mito.paf", "reads_to_nuc.bam", "reads_to_mito.bam"]
    }

    /// The first of the needed intermediate files that is missing, given for
    /// each whether it is there; nothing when all four are there.
    pub fn first_missing(present: &[bool; 4]) -> (r: Option<&'static str>)
        ensures
            match first_absent(present@, 0) {
                Some(i) => r is Some && r->0@ == artifact_names()[i],
                None => r is None,
            },
    {
        let names = Self::artifacts();
        let mut i: usize = 0;
        while i < 4
            invariant
                i <= 4,
                present@.len() == 4,
                names@.len() == 4,
                forall|k: int| 0 <= k < 4 ==> (#[trigger] names@[k])@ == artifact_names()[k],
                first_absent(present@, 0) == first_absent(present@, i as int),
            decreases 4 - i,
        {
            if !present[i] {
                return Some(names[i]);
            }
            i += 1;
        }
        None
    }
}

} // verus!
