//! What the program reports about itself.

use vstd::prelude::*;

verus! {

/// The compiler version to report: the one recorded when the program was
/// built, and `unknown` if none was.
pub fn version(recorded: Option<&str>) -> (v: String)
    ensures
        v@ == (match recorded {
            Some(s) => s@,
            None => "unknown"@,
        }),
{
    match recorded {
        Some(s) => s.to_owned(),
        None => String::from_str("unknown"),
    }
}

} // verus!
