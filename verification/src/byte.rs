//! Byte counts: inputs that mention bits are parsed in the bit domain and
//! converted down, everything else takes `B` as the base unit; output carries
//! a `B` suffix.

use vstd::prelude::*;

verus! {

use vstd::string::StringExecFns;

use crate::bit;
use crate::bit::bit_units;
use crate::error::Error;
use crate::error::ErrorModel;
use crate::si;
use crate::si::result_matches;
use crate::si::spec_format;
use crate::si::spec_parse;
use crate::si::units_view;
use crate::text::contains_char;
use crate::text::seq_contains_char;

/// The unit table of the byte domain: `B` alone, as one byte.
pub open spec fn byte_units() -> Seq<(Seq<char>, u64)> {
    seq![(seq!['B'], 1u64)]
}

/// The model of a byte parse: an input containing `b` anywhere is read as
/// bits and divided by eight (truncating); any other input is read with `B`
/// as its only additional unit.
pub open spec fn spec_byte_parse(input: Seq<char>) -> Result<u64, ErrorModel> {
    if seq_contains_char(input, 'b') {
        match spec_parse(input, bit_units()) {
            Ok(n) => Ok((n / 8) as u64),
            Err(e) => Err(e),
        }
    } else {
        spec_parse(input, byte_units())
    }
}

/// Parse a data string into a number of bytes.
///
/// A string that mentions bits (any `b`) is parsed as bits and converted to
/// whole bytes, truncated downward.
pub fn parse<'a>(input: &'a str) -> (r: Result<u64, Error<'a>>)
    ensures
        result_matches(r, spec_byte_parse(input@)),
{
    if contains_char(input, 'b') {
        match bit::parse(input) {
            Ok(n) => Ok(n / 8),
            Err(e) => Err(e),
        }
    } else {
        let units: &[(&str, u64)] = &[("B", 1)];
        let r = si::parse_with_additional_units(input, units);
        proof {
            reveal_strlit("B");
            let w = units_view(units@);
            assert(w[0].0 =~= seq!['B']);
            assert(w =~= byte_units());
        }
        r
    }
}

/// Format a number of bytes into an SI prefixed data string with a `B`
/// suffix.
pub fn format(input: u64) -> (r: String)
    ensures
        r@ == spec_format(input) + seq!['B'],
{
    let r = si::format(input).concat("B");
    proof {
        reveal_strlit("B");
        assert(r@ =~= spec_format(input) + seq!['B']);
    }
    r
}

} // verus!
