//! Bit rates: a trailing `/s` or `ps` is stripped once, then the input is
//! read as bits; output is the bit rendering with a `/s` suffix.

use vstd::prelude::*;

verus! {

use vstd::string::StringExecFns;

use crate::bit;
use crate::bit::bit_units;
use crate::error::Error;
use crate::si::result_matches;
use crate::si::spec_format;
use crate::si::spec_parse;
use crate::spec_strip_per_second;
use crate::strip_per_second;

/// Parse a data-rate string into a number of bits per second.
pub fn parse<'a>(input: &'a str) -> (r: Result<u64, Error<'a>>)
    ensures
        result_matches(r, spec_parse(spec_strip_per_second(input@), bit_units())),
{
    bit::parse(strip_per_second(input))
}

/// Format a number of bits per second into a data-rate string: the bit
/// rendering with a `/s` suffix.
pub fn format(input: u64) -> (r: String)
    ensures
        r@ == spec_format(input) + seq!['b', '/', 's'],
{
    let r = bit::format(input).concat("/s");
    proof {
        reveal_strlit("/s");
        assert(r@ =~= spec_format(input) + seq!['b', '/', 's']);
    }
    r
}

} // verus!
