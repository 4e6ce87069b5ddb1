//! Parser and formatter for SI-prefixed quantity strings: data sizes, data
//! rates, packet counts and packet rates (for example `"12.3kb"`, `"5.1MB/s"`,
//! `"3.4kp"`).
//!
//! The core engine lives in [`si`]: it turns a string such as `"12.34kB"` into
//! a `u64` count of base units without going through floating point, and turns
//! a `u64` back into the shortest SI-prefixed rendering with at most two
//! fraction digits. The domain modules ([`bit`], [`byte`], [`bps`], [`byteps`],
//! [`packet`], [`pps`]) fix a unit table and a suffix on top of the engine.
//!
//! Every function is specified against a sequence-level model of the grammar,
//! so the contracts state exactly which inputs parse, to what value, and which
//! error every rejected input produces.

use vstd::prelude::*;

pub mod bit;
pub mod bps;
pub mod byte;
pub mod byteps;
mod digits;
mod error;
pub mod packet;
pub mod pps;
pub mod si;
mod text;

pub use error::Error;
pub use error::ErrorModel;
pub use error::IntErrorCause;

verus! {

use vstd::string::StrSliceExecFns;

use crate::text::trim_ws;

/// The text that remains after trimming whitespace and removing at most one
/// trailing per-second marker: `/s` is tried first, then `ps`; never both.
pub open spec fn spec_strip_per_second(s: Seq<char>) -> Seq<char> {
    let t = trim_ws(s);
    if t.len() >= 2 && t[t.len() - 2] == '/' && t[t.len() - 1] == 's' {
        t.take(t.len() - 2)
    } else if t.len() >= 2 && t[t.len() - 2] == 'p' && t[t.len() - 1] == 's' {
        t.take(t.len() - 2)
    } else {
        t
    }
}

/// Strip at most one trailing per-second marker, `/s` or `ps`, after trimming
/// surrounding whitespace. The result is a slice of the input, not a copy.
pub fn strip_per_second<'a>(input: &'a str) -> (r: &'a str)
    ensures
        r@ == spec_strip_per_second(input@),
{
    let t = crate::text::trim(input);
    let n = t.unicode_len();
    if n >= 2 {
        let a = t.get_char(n - 2);
        let b = t.get_char(n - 1);
        if (a == '/' && b == 's') || (a == 'p' && b == 's') {
            return t.substring_char(0, n - 2);
        }
    }
    t
}

/// At most one per-second marker is removed: the result is the trimmed input
/// itself, or the trimmed input with exactly its last two characters gone.
pub proof fn lemma_strip_at_most_once(s: Seq<char>)
    ensures
        spec_strip_per_second(s) == trim_ws(s) || spec_strip_per_second(s) == trim_ws(s).take(
            trim_ws(s).len() - 2,
        ),
{
}

} // verus!
