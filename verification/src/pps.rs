//! Packet rates: a trailing `/s` or `ps` is stripped once, then the input is
//! read as packets; output is the packet rendering with a `/s` suffix.

use vstd::prelude::*;

verus! {

use vstd::string::StringExecFns;

use crate::error::Error;
use crate::packet;
use crate::packet::packet_units;
use crate::si::result_matches;
use crate::si::spec_format;
use crate::si::spec_parse;
use crate::spec_strip_per_second;
use crate::strip_per_second;

/// Parse a packet-rate string into a number of packets per second.
pub fn parse<'a>(input: &'a str) -> (r: Result<u64, Error<'a>>)
    ensures
        result_matches(r, spec_parse(spec_strip_per_second(input@), packet_units())),
{
    packet::parse(strip_per_second(input))
}

/// Format a number of packets per second into a packet-rate string: the
/// packet rendering with a `/s` suffix.
pub fn format(input: u64) -> (r: String)
    ensures
        r@ == spec_format(input) + seq!['p', '/', 's'],
{
    let r = packet::format(input).concat("/s");
    proof {
        reveal_strlit("/s");
        assert(r@ =~= spec_format(input) + seq!['p', '/', 's']);
    }
    r
}

} // verus!
