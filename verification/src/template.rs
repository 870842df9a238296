//! The bare skeleton every solver starts from: split the input into lines
//! and report how many there are, for each of the three puzzle parts.

use vstd::prelude::*;
use vstd::string::{StrSliceExecFns, StringSliceAdditionalSpecFns};

use crate::text::{lines_spec, split_lines, trim_bytes, trim_spec};

verus! {

/// The trimmed input, one line per entry, each line as its bytes.
pub fn parse(input: &str) -> (r: Vec<Vec<u8>>)
    ensures
        r@.map_values(|f: Vec<u8>| f@) == lines_spec(trim_spec(input.spec_bytes())),
{
    let bytes = input.as_bytes_vec();
    let trimmed = trim_bytes(&bytes);
    split_lines(&trimmed)
}

/// The number of lines in the trimmed input.
pub fn p1(input: &str) -> (r: usize)
    ensures
        r == lines_spec(trim_spec(input.spec_bytes())).len(),
{
    let parsed = parse(input);
    parsed.len()
}

/// The number of lines in the trimmed input.
pub fn p2(input: &str) -> (r: usize)
    ensures
        r == lines_spec(trim_spec(input.spec_bytes())).len(),
{
    let parsed = parse(input);
    parsed.len()
}

/// The number of lines in the trimmed input.
pub fn p3(input: &str) -> (r: usize)
    ensures
        r == lines_spec(trim_spec(input.spec_bytes())).len(),
{
    let parsed = parse(input);
    parsed.len()
}

} // verus!
