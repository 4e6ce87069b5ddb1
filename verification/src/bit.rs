//! Bit counts: the SI engine with `b` (bit) and `B` (byte, eight bits) as
//! additional units, and a `b` suffix on output.

use vstd::prelude::*;

verus! {

use vstd::string::StringExecFns;

use crate::error::Error;
use crate::si;
use crate::si::result_matches;
use crate::si::spec_format;
use crate::si::spec_parse;
use crate::si::units_view;

/// The unit table of the bit domain: `b` is one bit, `B` is eight.
pub open spec fn bit_units() -> Seq<(Seq<char>, u64)> {
    seq![(seq!['b'], 1u64), (seq!['B'], 8u64)]
}

/// Parse a data string into a number of bits.
///
/// `b` counts single bits and `B` counts bytes of eight; a fractional number
/// of bytes resolves to whole bits, truncated downward.
pub fn parse<'a>(input: &'a str) -> (r: Result<u64, Error<'a>>)
    ensures
        result_matches(r, spec_parse(input@, bit_units())),
{
    let units: &[(&str, u64)] = &[("b", 1), ("B", 8)];
    let r = si::parse_with_additional_units(input, units);
    proof {
        reveal_strlit("b");
        reveal_strlit("B");
        let w = units_view(units@);
        assert(w[0].0 =~= seq!['b']);
        assert(w[1].0 =~= seq!['B']);
        assert(w =~= bit_units());
    }
    r
}

/// Format a number of bits into an SI prefixed data string with a `b` suffix.
pub fn format(input: u64) -> (r: String)
    ensures
        r@ == spec_format(input) + seq!['b'],
{
    let r = si::format(input).concat("b");
    proof {
        reveal_strlit("b");
        assert(r@ =~= spec_format(input) + seq!['b']);
    }
    r
}

} // verus!
