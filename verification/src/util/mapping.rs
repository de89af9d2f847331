//! Choices made when the external tools are looked up and run.

use crate::text::{chars_of, lines, rows, split_lines, str_eq, string_of};
use vstd::prelude::*;

verus! {

/// A sequencing platform for which there is no aligner preset.
#[derive(Debug, Clone, Copy, PartialEq, Eq, Structural)]
pub struct UnknownPlatform;

impl UnknownPlatform {
    /// The message that reports `platform` as unknown.
    pub fn message(&self, platform: &str) -> (m: String)
        ensures
            m@ == "unknown --platform "@ + platform@ + "; use hifi|ont"@,
    {
        let mut m = String::from_str("unknown --platform ");
        m.append(platform);
        m.append("; use hifi|ont");
        m
    }
}

/// The aligner preset for reads of a sequencing platform: `map-hifi` for
/// `hifi`, `map-ont` for `ont`, and none for any other platform.
pub open spec fn preset_of(platform: Seq<char>) -> Option<Seq<char>> {
    if platform == "hifi"@ {
        Some("map-hifi"@)
    } else if platform == "ont"@ {
        Some("map-ont"@)
    } else {
        None
    }
}

/// The aligner preset for reads of the given sequencing platform.
pub fn preset_for(platform: &str) -> (r: Result<&'static str, UnknownPlatform>)
    ensures
        match preset_of(platform@) {
            Some(p) => r is Ok && r->Ok_0@ == p,
            None => r is Err,
        },
{
    if str_eq(platform, "hifi") {
        Ok("map-hifi")
    } else if str_eq(platform, "ont") {
        Ok("map-ont")
    } else {
        Err(UnknownPlatform)
    }
}

/// A tool that was neither given nor found on the search path.
#[derive(Debug, Clone, Copy, PartialEq, Eq, Structural)]
pub struct ToolNotFound;

impl ToolNotFound {
    /// The message that reports `tool` as missing.
    pub fn message(&self, tool: &str) -> (m: String)
        ensures
            m@ == tool@ + " not found in PATH. Install or pass --"@ + tool@,
    {
        let mut m = tool.to_owned();
        m.append(" not found in PATH. Install or pass --");
        m.append(tool);
        m
    }
}

/// The path of a tool: the one given on the command line if there is one,
/// else the one found on the search path.
pub fn resolve_bin(given: Option<&str>, found: Option<&str>) -> (r: Result<String, ToolNotFound>)
    ensures
        match (given, found) {
            (Some(p), _) => r is Ok && r->Ok_0@ == p@,
            (None, Some(p)) => r is Ok && r->Ok_0@ == p@,
            (None, None) => r is Err,
        },
{
    match given {
        Some(p) => Ok(p.to_owned()),
        None => match found {
            Some(p) => Ok(p.to_owned()),
            None => Err(ToolNotFound),
        },
    }
}

/// The version that a tool reports: the first line of what it prints when
/// asked for its version, and the empty text if it prints nothing.
pub open spec fn version_of(printed: Seq<char>) -> Seq<char> {
    if lines(printed).len() > 0 {
        lines(printed)[0]
    } else {
        Seq::empty()
    }
}

/// The version that a tool reports, from what it prints when asked.
pub fn get_version(printed: &str) -> (v: String)
    ensures
        v@ == version_of(printed@),
{
    let ls = split_lines(&chars_of(printed));
    if ls.len() > 0 {
        assert(rows(ls@)[0] == ls[0]@);
        string_of(&ls[0])
    } else {
        String::new()
    }
}

} // verus!
