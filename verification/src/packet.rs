//! Packet counts: the SI engine with `p` as the only additional unit, and a
//! `p` suffix on output.

use vstd::prelude::*;

verus! {

use vstd::string::StringExecFns;

use crate::error::Error;
use crate::si;
use crate::si::result_matches;
use crate::si::spec_format;
use crate::si::spec_parse;
use crate::si::units_view;

/// The unit table of the packet domain: `p` alone, as one packet.
pub open spec fn packet_units() -> Seq<(Seq<char>, u64)> {
    seq![(seq!['p'], 1u64)]
}

/// Parse a packet count string into a number of packets.
pub fn parse<'a>(input: &'a str) -> (r: Result<u64, Error<'a>>)
    ensures
        result_matches(r, spec_parse(input@, packet_units())),
{
    let units: &[(&str, u64)] = &[("p", 1)];
    let r = si::parse_with_additional_units(input, units);
    proof {
        reveal_strlit("p");
        let w = units_view(units@);
        assert(w[0].0 =~= seq!['p']);
        assert(w =~= packet_units());
    }
    r
}

/// Format a number of packets into an SI prefixed string with a `p` suffix.
pub fn format(input: u64) -> (r: String)
    ensures
        r@ == spec_format(input) + seq!['p'],
{
    let r = si::format(input).concat("p");
    proof {
        reveal_strlit("p");
        assert(r@ =~= spec_format(input) + seq!['p']);
    }
    r
}

} // verus!
