//! Byte rates: a trailing `/s` or `ps` is stripped once, then the input is
//! read as bytes; output is the byte rendering with a `/s` suffix.

use vstd::prelude::*;

verus! {

use vstd::string::StringExecFns;

use crate::byte;
use crate::byte::spec_byte_parse;
use crate::error::Error;
use crate::si::result_matches;
use crate::si::spec_format;
use crate::spec_strip_per_second;
use crate::strip_per_second;

/// Parse a data-rate string into a number of bytes per second.
pub fn parse<'a>(input: &'a str) -> (r: Result<u64, Error<'a>>)
    ensures
        result_matches(r, spec_byte_parse(spec_strip_per_second(input@))),
{
    byte::parse(strip_per_second(input))
}

/// Format a number of bytes per second into a data-rate string: the byte
/// rendering with a `/s` suffix.
pub fn format(input: u64) -> (r: String)
    ensures
        r@ == spec_format(input) + seq!['B', '/', 's'],
{
    let r = byte::format(input).concat("/s");
    proof {
        reveal_strlit("/s");
        assert(r@ =~= spec_format(input) + seq!['B', '/', 's']);
    }
    r
}

} // verus!
