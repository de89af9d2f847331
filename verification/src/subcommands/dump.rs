//! Looking up one locus in the table of features and scores.

use crate::text::{chars_of, lines, rows, split_lines, string_of};
use vstd::prelude::*;

verus! {

/// The arguments of a lookup.
#[derive(Debug, Clone)]
pub struct CmdDump {
    /// Output directory of the run.
    pub run: String,
    /// The pair id to look for.
    pub pair: String,
    /// Where to write sequences, if anywhere.
    pub fasta_out: Option<String>,
    /// Where to write the record, if anywhere.
    pub json: Option<String>,
}

/// Why a lookup found nothing.
#[derive(Debug, Clone, Copy, PartialEq, Eq, Structural)]
pub enum DumpError {
    /// No line of the table begins with the pair id.
    PairNotFound,
}

/// Whether `line` begins with `pair`.
pub open spec fn begins_with(line: Seq<char>, pair: Seq<char>) -> bool {
    pair.len() <= line.len() && line.subrange(0, pair.len() as int) == pair
}

/// The position of the first line at or after `i` that begins with `pair`,
/// if there is one.
pub open spec fn first_match(ls: Seq<Seq<char>>, pair: Seq<char>, i: int) -> Option<int>
    decreases ls.len() - i,
{
    if i >= ls.len() || i < 0 {
        None
    } else if begins_with(ls[i], pair) {
        Some(i)
    } else {
        first_match(ls, pair, i + 1)
    }
}

/// Whether `line` begins with `pair`.
fn line_begins_with(line: &Vec<char>, pair: &Vec<char>) -> (r: bool)
    ensures
        r == begins_with(line@, pair@),
{
    if pair.len() > line.len() {
        return false;
    }
    let mut i: usize = 0;
    while i < pair.len()
        invariant
            i <= pair.len() <= line.len(),
            line@.subrange(0, i as int) == pair@.subrange(0, i as int),
        decreases pair.len() - i,
    {
        if line[i] != pair[i] {
            assert(line@.subrange(0, pair.len() as int)[i as int] != pair@[i as int]);
            return false;
        }
        assert(line@.subrange(0, i + 1) =~= line@.subrange(0, i as int).push(line@[i as int]));
        assert(pair@.subrange(0, i + 1) =~= pair@.subrange(0, i as int).push(pair@[i as int]));
        i += 1;
    }
    assert(pair@.subrange(0, i as int) =~= pair@);
    true
}

impl CmdDump {
    /// The header of the table and the first line after it that begins with
    /// the pair id.  The header is the first line of the table, and empty if
    /// the table is.
    pub fn select(&self, pairs_tsv: &str) -> (r: Result<(String, String), DumpError>)
        ensures
            match first_match(lines(pairs_tsv@), self.pair@, 1) {
                Some(i) => r is Ok && r->Ok_0.0@ == lines(pairs_tsv@)[0] && r->Ok_0.1@ == lines(
                    pairs_tsv@,
                )[i],
                None => r == Err::<(String, String), DumpError>(DumpError::PairNotFound),
            },
    {
        let ls = split_lines(&chars_of(pairs_tsv));
        let pair = chars_of(self.pair.as_str());
        let mut i: usize = 1;
        while i < ls.len()
            invariant
                1 <= i,
                pair@ == self.pair@,
                rows(ls@) == lines(pairs_tsv@),
                first_match(rows(ls@), pair@, 1) == first_match(rows(ls@), pair@, i as int),
            decreases ls.len() - i,
        {
            assert(rows(ls@)[i as int] == ls[i as int]@);
            if line_begins_with(&ls[i], &pair) {
                assert(rows(ls@)[0] == ls[0]@);
                return Ok((string_of(&ls[0]), string_of(&ls[i])));
            }
            i += 1;
        }
        Err(DumpError::PairNotFound)
    }
}

} // verus!
