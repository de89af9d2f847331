//! Checks on the input files of a run.

use vstd::prelude::*;

verus! {

/// Why an input is refused.
#[derive(Debug, Clone, Copy, PartialEq, Eq, Structural)]
pub enum InputError {
    /// Nothing exists at the path.
    NotFound,
    /// What exists at the path is not a regular file.
    NotAFile,
}

impl InputError {
    /// What is said in front of the path when the error is reported.
    pub open spec fn prefix(self) -> Seq<char> {
        match self {
            InputError::NotFound => "input not found: "@,
            InputError::NotAFile => "not a file: "@,
        }
    }

    /// The message that reports the error for the input at `path`.
    pub fn message(&self, path: &str) -> (m: String)
        ensures
            m@ == self.prefix() + path@,
    {
        let mut m = match self {
            InputError::NotFound => String::from_str("input not found: "),
            InputError::NotAFile => String::from_str("not a file: "),
        };
        m.append(path);
        m
    }
}

/// Accepts an input of which the file system says whether it exists and
/// whether it is a regular file.
pub fn ensure_exists(exists: bool, is_file: bool) -> (r: Result<(), InputError>)
    ensures
        r == (if !exists {
            Err::<(), InputError>(InputError::NotFound)
        } else if !is_file {
            Err::<(), InputError>(InputError::NotAFile)
        } else {
            Ok::<(), InputError>(())
        }),
{
    if !exists {
        return Err(InputError::NotFound);
    }
    if !is_file {
        return Err(InputError::NotAFile);
    }
    Ok(())
}

} // verus!
