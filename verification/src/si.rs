//! The SI-prefix engine: parsing a prefixed decimal string into a `u64` and
//! formatting a `u64` back into the shortest prefixed rendering.
//!
//! The grammar and the exact arithmetic are defined by the sequence-level
//! model ([`spec_parse`], [`spec_format`]); the executable functions are
//! proved equal to it. Scaling is exact fixed-point arithmetic: the fraction
//! digits are multiplied by the unit factor before dividing by the matching
//! power of ten, so no precision is lost to an intermediate rounding.

use vstd::prelude::*;

verus! {

use vstd::arithmetic::div_mod::lemma_basic_div;
use vstd::arithmetic::div_mod::lemma_div_denominator;
use vstd::arithmetic::div_mod::lemma_fundamental_div_mod;
use vstd::arithmetic::div_mod::lemma_hoist_over_denominator;
use vstd::arithmetic::div_mod::lemma_multiply_divide_lt;
use vstd::arithmetic::mul::lemma_mul_strict_inequality;
use vstd::string::StrSliceExecFns;
use vstd::string::StringExecFns;
use vstd::utf8::is_ascii_chars;

use crate::digits::all_digits;
use crate::digits::dec_digits;
use crate::digits::digits_val;
use crate::digits::lemma_dec_digits;
use crate::digits::lemma_digits_val_bound;
use crate::digits::lemma_pow10_adds;
use crate::digits::lemma_pow10_mono;
use crate::digits::lemma_pow10_pos;
use crate::digits::lemma_pow10_values;
use crate::digits::lemma_strip_trailing_zeros_at;
use crate::digits::parse_digits;
use crate::digits::pow10;
use crate::digits::pow10_u64;
use crate::digits::strip_trailing_zeros;
use crate::digits::u64_digits;
use crate::error::Error;
use crate::error::ErrorModel;
use crate::error::IntErrorCause;
use crate::text::alpha_split_idx;
use crate::text::dot_split_idx;
use crate::text::drop_leading_ws;
use crate::text::drop_trailing_ws;
use crate::text::find_alpha_split;
use crate::text::find_dot_split;
use crate::text::str_eq;
use crate::text::trim;
use crate::text::trim_ws;

/// The factor an SI prefix letter names, matched case-insensitively; `None`
/// for any other character.
pub open spec fn si_factor_of(c: char) -> Option<u64> {
    if c == 'k' || c == 'K' {
        Some(1_000u64)
    } else if c == 'm' || c == 'M' {
        Some(1_000_000u64)
    } else if c == 'g' || c == 'G' {
        Some(1_000_000_000u64)
    } else if c == 't' || c == 'T' {
        Some(1_000_000_000_000u64)
    } else if c == 'p' || c == 'P' {
        Some(1_000_000_000_000_000u64)
    } else if c == 'e' || c == 'E' {
        Some(1_000_000_000_000_000_000u64)
    } else {
        None
    }
}

/// The model of a unit table: each additional unit as its text and factor.
pub open spec fn units_view(units: Seq<(&str, u64)>) -> Seq<(Seq<char>, u64)> {
    Seq::new(units.len(), |i: int| (units[i].0@, units[i].1))
}

/// Whether some additional unit's text is exactly the one-character string
/// `c`. Such a unit shadows the SI prefix letter it collides with.
pub open spec fn unit_has_single(units: Seq<(Seq<char>, u64)>, c: char) -> bool {
    exists|i: int| 0 <= i < units.len() && units[i].0 == seq![c]
}

/// The unit text after SI-prefix consumption, and the consumed factor. The
/// first character is consumed as an SI prefix exactly when it names one and
/// no additional unit is that single character.
pub open spec fn si_consume(unit_text: Seq<char>, units: Seq<(Seq<char>, u64)>) -> (
    Seq<char>,
    u64,
) {
    if unit_text.len() > 0 {
        match si_factor_of(unit_text[0]) {
            Some(f) => {
                if !unit_has_single(units, unit_text[0]) {
                    (unit_text.skip(1), f)
                } else {
                    (unit_text, 1u64)
                }
            },
            None => (unit_text, 1u64),
        }
    } else {
        (unit_text, 1u64)
    }
}

/// The factor of the first additional unit whose text equals `rest`, in
/// table order; `None` when none matches.
pub open spec fn unit_factor(units: Seq<(Seq<char>, u64)>, rest: Seq<char>) -> Option<u64>
    decreases units.len(),
{
    if units.len() == 0 {
        None
    } else if units[0].0 == rest {
        Some(units[0].1)
    } else {
        unit_factor(units.drop_first(), rest)
    }
}

/// The exact mathematical value the two digit strings name under the
/// multiplier: the integer digits scaled, plus the fraction digits scaled and
/// then divided (truncating) by ten to the fraction's length.
pub open spec fn scaled_value(int_digits: Seq<char>, frac_digits: Seq<char>, mult: nat) -> nat {
    digits_val(int_digits) * mult + (digits_val(frac_digits) * mult) / pow10(frac_digits.len())
}

/// The numeric stage of a parse: how a trimmed value text and a resolved
/// multiplier become a `u64` or an error. The fraction's trailing zeros are
/// dropped first; a value text with no digits at all is rejected with no
/// cause; unreadable digits and values above `u64::MAX` carry their cause.
pub open spec fn spec_scale(value: Seq<char>, mult: nat) -> Result<u64, ErrorModel> {
    let dot = dot_split_idx(value);
    let int_digits = value.take(dot);
    let frac_raw = if dot < value.len() {
        value.skip(dot + 1)
    } else {
        Seq::<char>::empty()
    };
    let frac_digits = strip_trailing_zeros(frac_raw);
    if int_digits.len() == 0 && frac_digits.len() == 0 {
        Err(ErrorModel::ParseIntError(value, None))
    } else if !all_digits(int_digits) {
        Err(ErrorModel::ParseIntError(int_digits, Some(IntErrorCause::InvalidDigit)))
    } else if digits_val(int_digits) > u64::MAX {
        Err(ErrorModel::ParseIntError(int_digits, Some(IntErrorCause::Overflow)))
    } else if !all_digits(frac_digits) {
        Err(ErrorModel::ParseIntError(frac_digits, Some(IntErrorCause::InvalidDigit)))
    } else if digits_val(frac_digits) > u64::MAX {
        Err(ErrorModel::ParseIntError(frac_digits, Some(IntErrorCause::Overflow)))
    } else if scaled_value(int_digits, frac_digits, mult) > u64::MAX {
        Err(ErrorModel::ParseIntError(value, Some(IntErrorCause::Overflow)))
    } else {
        Ok(scaled_value(int_digits, frac_digits, mult) as u64)
    }
}

/// The model of a parse: trim, split the input at its first letter, resolve
/// the unit text to a multiplier (SI prefix first, then one additional unit,
/// anything left over is invalid), then scale the value text.
pub open spec fn spec_parse(input: Seq<char>, units: Seq<(Seq<char>, u64)>) -> Result<
    u64,
    ErrorModel,
> {
    if !is_ascii_chars(input) {
        Err(ErrorModel::NotAscii)
    } else {
        let t = trim_ws(input);
        let split = alpha_split_idx(t);
        let unit_text = t.skip(split);
        let sc = si_consume(unit_text, units);
        let af = if sc.0.len() == 0 {
            Some(1u64)
        } else {
            unit_factor(units, sc.0)
        };
        match af {
            None => Err(ErrorModel::InvalidUnit(unit_text)),
            Some(f) => spec_scale(trim_ws(t.take(split)), (sc.1 as nat) * (f as nat)),
        }
    }
}

/// Whether an executable parse result agrees with the model's.
pub open spec fn result_matches(r: Result<u64, Error>, m: Result<u64, ErrorModel>) -> bool {
    match r {
        Ok(v) => m == Ok::<u64, ErrorModel>(v),
        Err(e) => m == Err::<u64, ErrorModel>(e@),
    }
}

fn si_factor(c: char) -> (r: Option<u64>)
    ensures
        r == si_factor_of(c),
{
    if c == 'k' || c == 'K' {
        Some(1_000u64)
    } else if c == 'm' || c == 'M' {
        Some(1_000_000u64)
    } else if c == 'g' || c == 'G' {
        Some(1_000_000_000u64)
    } else if c == 't' || c == 'T' {
        Some(1_000_000_000_000u64)
    } else if c == 'p' || c == 'P' {
        Some(1_000_000_000_000_000u64)
    } else if c == 'e' || c == 'E' {
        Some(1_000_000_000_000_000_000u64)
    } else {
        None
    }
}

/// Whether some additional unit's text equals the given one-character string.
fn has_single_unit(units: &[(&str, u64)], one: &str, Ghost(c): Ghost<char>) -> (r: bool)
    requires
        one@ == seq![c],
    ensures
        r == unit_has_single(units_view(units@), c),
{
    let ghost uv = units_view(units@);
    let n = units.len();
    let mut i: usize = 0;
    while i < n
        invariant
            0 <= i <= n,
            n == units@.len(),
            one@ == seq![c],
            uv == units_view(units@),
            forall|j: int| 0 <= j < i ==> uv[j].0 != seq![c],
        decreases n - i,
    {
        let u = units[i];
        if str_eq(u.0, one) {
            proof {
                assert(uv[i as int].0 == seq![c]);
            }
            return true;
        }
        i = i + 1;
    }
    false
}

proof fn lemma_unit_factor_found(units: Seq<(Seq<char>, u64)>, rest: Seq<char>, i: int)
    requires
        0 <= i < units.len(),
        units[i].0 == rest,
        forall|j: int| 0 <= j < i ==> units[j].0 != rest,
    ensures
        unit_factor(units, rest) == Some(units[i].1),
    decreases i,
{
    if i == 0 {
    } else {
        assert(units[0].0 != rest);
        let u1 = units.drop_first();
        assert(forall|j: int| 0 <= j < i - 1 ==> u1[j] == units[j + 1]);
        lemma_unit_factor_found(u1, rest, i - 1);
    }
}

proof fn lemma_unit_factor_none(units: Seq<(Seq<char>, u64)>, rest: Seq<char>)
    requires
        forall|j: int| 0 <= j < units.len() ==> units[j].0 != rest,
    ensures
        unit_factor(units, rest) is None,
    decreases units.len(),
{
    if units.len() > 0 {
        let u1 = units.drop_first();
        assert(forall|j: int| 0 <= j < u1.len() ==> u1[j] == units[j + 1]);
        lemma_unit_factor_none(u1, rest);
    }
}

/// The factor of the first additional unit whose text equals `rest`.
fn find_unit(units: &[(&str, u64)], rest: &str) -> (r: Option<u64>)
    ensures
        r == unit_factor(units_view(units@), rest@),
{
    let ghost uv = units_view(units@);
    let n = units.len();
    let mut i: usize = 0;
    while i < n
        invariant
            0 <= i <= n,
            n == units@.len(),
            uv == units_view(units@),
            forall|j: int| 0 <= j < i ==> uv[j].0 != rest@,
        decreases n - i,
    {
        let u = units[i];
        if str_eq(u.0, rest) {
            proof {
                lemma_unit_factor_found(uv, rest@, i as int);
            }
            return Some(u.1);
        }
        i = i + 1;
    }
    proof {
        lemma_unit_factor_none(uv, rest@);
    }
    None
}

/// Ten to a power that fits a `u128`.
fn pow10_u128(e: usize) -> (r: u128)
    requires
        e <= 38,
    ensures
        r as nat == pow10(e as nat),
{
    proof {
        lemma_pow10_values();
        lemma_pow10_adds(19, 19);
        assert(pow10(38) == pow10(19) * pow10(19));
    }
    let mut r: u128 = 1;
    let mut i: usize = 0;
    while i < e
        invariant
            0 <= i <= e <= 38,
            r as nat == pow10(i as nat),
            pow10(38) == 100_000_000_000_000_000_000_000_000_000_000_000_000,
        decreases e - i,
    {
        proof {
            lemma_pow10_mono((i + 1) as nat, 38);
        }
        r = r * 10;
        i = i + 1;
    }
    r
}

/// A fraction scaled by its multiplier stays below the multiplier.
proof fn lemma_frac_le_mult(fv: nat, len: nat, mult: nat)
    requires
        fv < pow10(len),
    ensures
        (fv * mult) / pow10(len) <= mult,
{
    lemma_pow10_pos(len);
    if mult == 0 {
        assert(fv * 0 == 0);
        assert(0int / (pow10(len) as int) == 0) by {
            lemma_basic_div(0, pow10(len) as int);
        }
    } else {
        assert(fv * mult < pow10(len) * mult) by {
            lemma_mul_strict_inequality(fv as int, pow10(len) as int, mult as int);
        }
        lemma_multiply_divide_lt((fv * mult) as int, pow10(len) as int, mult as int);
    }
}

/// Exact truncated scaling of the fraction digits: `fv * mult / 10^len`,
/// computed without overflow for any multiplier the parser can build.
fn frac_contrib(fv: u64, len: usize, mult: u128) -> (r: u128)
    requires
        mult <= 1_000_000_000_000_000_000u128 * 0xFFFF_FFFF_FFFF_FFFFu128,
        (fv as nat) < pow10(len as nat),
    ensures
        r as nat == ((fv as nat) * (mult as nat)) / pow10(len as nat),
{
    proof {
        lemma_pow10_values();
        lemma_pow10_pos(len as nat);
    }
    if len == 0 {
        proof {
            assert(fv == 0);
            assert(((0 as nat) * (mult as nat)) / pow10(0) == 0);
        }
        return 0;
    }
    let d: usize = if len <= 19 {
        len
    } else {
        19
    };
    let p64: u64 = pow10_u64(d);
    let p: u128 = p64 as u128;
    let q: u128 = mult / p;
    let rem: u128 = mult % p;
    proof {
        lemma_fundamental_div_mod(mult as int, p as int);
        assert(mult == p * q + rem);
        if len <= 19 {
            assert((fv as int) < 10 * (p as int));
        } else {
            lemma_pow10_mono(19, len as nat);
            assert(p == 10_000_000_000_000_000_000u128);
            assert((fv as int) < 10 * (p as int));
        }
        assert((fv as int) * (q as int) <= 10 * (mult as int)) by (nonlinear_arith)
            requires
                0 <= fv,
                0 <= q,
                0 < p,
                (fv as int) < 10 * (p as int),
                (p as int) * (q as int) <= mult as int,
        ;
        assert((fv as int) * (rem as int) < 0x1_0000_0000_0000_0000i128 as int
            * 0x8AC7_2304_89E8_0000i128 as int) by (nonlinear_arith)
            requires
                0 <= fv < 0x1_0000_0000_0000_0000i128 as int,
                0 <= rem < 0x8AC7_2304_89E8_0000i128 as int,
        ;
    }
    let a: u128 = (fv as u128) * q;
    let b: u128 = (fv as u128) * rem;
    let bq: u128 = b / p;
    proof {
        if fv == 0 {
            assert(b == 0);
            lemma_basic_div(0, p as int);
        } else {
            assert((b as int) < (p as int) * (fv as int)) by (nonlinear_arith)
                requires
                    b as int == (fv as int) * (rem as int),
                    0 <= rem < p as int,
                    0 < fv,
            ;
            lemma_multiply_divide_lt(b as int, p as int, fv as int);
        }
        assert(bq <= fv);
    }
    let c1: u128 = a + bq;
    proof {
        assert((fv as int) * (mult as int) == ((fv as int) * (q as int)) * (p as int) + (fv as int)
            * (rem as int)) by (nonlinear_arith)
            requires
                mult as int == (p as int) * (q as int) + (rem as int),
        ;
        lemma_hoist_over_denominator((fv as int) * (rem as int), (fv as int) * (q as int), p as nat);
        assert(c1 as int == ((fv as int) * (mult as int)) / (p as int));
    }
    if len <= 19 {
        proof {
            assert(p as nat == pow10(len as nat));
        }
        c1
    } else {
        let e2 = len - 19;
        proof {
            lemma_pow10_adds(19, e2 as nat);
            assert(pow10(len as nat) == pow10(19) * pow10(e2 as nat));
        }
        if e2 >= 39 {
            proof {
                lemma_pow10_adds(19, 19);
                lemma_pow10_adds(38, 19);
                assert(pow10(57) == pow10(38) * pow10(19));
                lemma_pow10_mono(57, len as nat);
                assert((fv as int) * (mult as int) < pow10(57) as int) by (nonlinear_arith)
                    requires
                        0 <= fv < 0x1_0000_0000_0000_0000i128 as int,
                        0 <= mult <= 1_000_000_000_000_000_000i128 as int * 0xFFFF_FFFF_FFFF_FFFFi128
                            as int,
                        pow10(57) == 1_000_000_000_000_000_000_000_000_000_000_000_000_000_000_000_000_000_000_000nat,
                ;
                lemma_basic_div(((fv as nat) * (mult as nat)) as int, pow10(len as nat) as int);
            }
            0
        } else {
            let p2: u128 = pow10_u128(e2);
            proof {
                lemma_div_denominator(((fv as nat) * (mult as nat)) as int, p as int, p2 as int);
                assert((p as int) * (p2 as int) == pow10(len as nat) as int);
            }
            c1 / p2
        }
    }
}

/// The numeric stage: split the trimmed value text at its first dot, strip
/// the fraction's trailing zeros, read both digit strings, and scale exactly.
fn scale<'a>(value: &'a str, si_f: u64, add_f: u64) -> (r: Result<u64, Error<'a>>)
    requires
        1 <= si_f <= 1_000_000_000_000_000_000,
    ensures
        result_matches(r, spec_scale(value@, (si_f as nat) * (add_f as nat))),
{
    let ghost m: nat = (si_f as nat) * (add_f as nat);
    let vn = value.unicode_len();
    let dot = find_dot_split(value);
    let int_digits = value.substring_char(0, dot);
    let frac_raw = if dot < vn {
        value.substring_char(dot + 1, vn)
    } else {
        value.substring_char(vn, vn)
    };
    proof {
        assert(int_digits@ =~= value@.take(dot as int));
        if dot < vn {
            assert(frac_raw@ =~= value@.skip(dot + 1));
        } else {
            assert(frac_raw@ =~= Seq::<char>::empty());
        }
    }
    let fr_len = frac_raw.unicode_len();
    let mut end = fr_len;
    while end > 0 && frac_raw.get_char(end - 1) == '0'
        invariant
            0 <= end <= fr_len,
            fr_len == frac_raw@.len(),
            forall|j: int| end <= j < fr_len ==> frac_raw@[j] == '0',
        decreases end,
    {
        end = end - 1;
    }
    let frac_digits = frac_raw.substring_char(0, end);
    proof {
        lemma_strip_trailing_zeros_at(frac_raw@, end as int);
        assert(frac_digits@ =~= strip_trailing_zeros(frac_raw@));
    }
    if int_digits.is_empty() && frac_digits.is_empty() {
        return Err(Error::ParseIntError(value, None));
    }
    let iv = match parse_digits(int_digits) {
        Ok(v) => v,
        Err(k) => {
            return Err(Error::ParseIntError(int_digits, Some(k)));
        },
    };
    let fv = match parse_digits(frac_digits) {
        Ok(v) => v,
        Err(k) => {
            return Err(Error::ParseIntError(frac_digits, Some(k)));
        },
    };
    proof {
        lemma_pow10_values();
        assert((si_f as int) * (add_f as int) <= 1_000_000_000_000_000_000i128 as int
            * 0xFFFF_FFFF_FFFF_FFFFi128 as int) by (nonlinear_arith)
            requires
                0 <= si_f <= 1_000_000_000_000_000_000i128 as int,
                0 <= add_f <= 0xFFFF_FFFF_FFFF_FFFFi128 as int,
        ;
    }
    let mult: u128 = (si_f as u128) * (add_f as u128);
    proof {
        assert(m == mult as nat);
    }
    if iv != 0 {
        let lim = u64::MAX as u128 / (iv as u128);
        if mult > lim {
            proof {
                lemma_fundamental_div_mod(u64::MAX as int, iv as int);
                assert((iv as int) * (mult as int) > u64::MAX as int) by (nonlinear_arith)
                    requires
                        0 < iv,
                        mult as int >= (lim as int) + 1,
                        u64::MAX as int == (iv as int) * (lim as int) + (u64::MAX as int % (
                        iv as int)),
                        u64::MAX as int % (iv as int) < iv as int,
                ;
                assert(digits_val(int_digits@) == iv as nat);
                lemma_pow10_pos(frac_digits@.len());
                vstd::arithmetic::div_mod::lemma_div_pos_is_pos(
                    (digits_val(frac_digits@) * m) as int,
                    pow10(frac_digits@.len()) as int,
                );
                assert(scaled_value(int_digits@, frac_digits@, m) >= digits_val(int_digits@) * m);
                assert(scaled_value(int_digits@, frac_digits@, m) > u64::MAX);
            }
            return Err(Error::ParseIntError(value, Some(IntErrorCause::Overflow)));
        }
    }
    proof {
        if iv != 0 {
            lemma_fundamental_div_mod(u64::MAX as int, iv as int);
            assert((iv as int) * (mult as int) <= u64::MAX as int) by (nonlinear_arith)
                requires
                    0 < iv,
                    0 <= mult <= (u64::MAX as int) / (iv as int),
                    u64::MAX as int == (iv as int) * ((u64::MAX as int) / (iv as int)) + (
                    u64::MAX as int % (iv as int)),
                    0 <= u64::MAX as int % (iv as int),
            ;
        }
    }
    let int_part: u128 = (iv as u128) * mult;
    proof {
        lemma_digits_val_bound(frac_digits@);
        lemma_frac_le_mult(fv as nat, end as nat, mult as nat);
    }
    let fc = frac_contrib(fv, end, mult);
    let total = int_part + fc;
    if total > u64::MAX as u128 {
        return Err(Error::ParseIntError(value, Some(IntErrorCause::Overflow)));
    }
    proof {
        assert(scaled_value(int_digits@, frac_digits@, m) == total as nat);
    }
    Ok(total as u64)
}

/// Parse an SI prefixed string into a number.
///
/// Only positive, multiple-of-`1000` prefixes are supported (kilo up to exa),
/// matched case-insensitively; at most one prefix letter is consumed, and a
/// missing unit means a factor of one. Whitespace around the value and around
/// the unit is ignored. The contract is exact: the result, and the error on
/// every rejected input, are those of [`spec_parse`] with no additional units.
pub fn parse<'a>(input: &'a str) -> (r: Result<u64, Error<'a>>)
    ensures
        result_matches(r, spec_parse(input@, Seq::<(Seq<char>, u64)>::empty())),
{
    let units: &[(&str, u64)] = &[];
    let r = parse_with_additional_units(input, units);
    proof {
        assert(units_view(units@) =~= Seq::<(Seq<char>, u64)>::empty());
    }
    r
}

/// Like [`parse`] but with additional units that can be matched after the SI
/// prefix, case-sensitively and in table order; at most one is consumed. An
/// additional unit that is exactly an SI prefix letter shadows that letter.
pub fn parse_with_additional_units<'a>(input: &'a str, additional_units: &[(&str, u64)]) -> (r:
    Result<u64, Error<'a>>)
    ensures
        result_matches(r, spec_parse(input@, units_view(additional_units@))),
{
    let ghost uv = units_view(additional_units@);
    if !input.is_ascii() {
        return Err(Error::NotAscii);
    }
    let t = trim(input);
    let tn = t.unicode_len();
    let split = find_alpha_split(t);
    let value_raw = t.substring_char(0, split);
    let unit_text = t.substring_char(split, tn);
    proof {
        assert(value_raw@ =~= trim_ws(input@).take(alpha_split_idx(trim_ws(input@))));
        assert(unit_text@ =~= trim_ws(input@).skip(alpha_split_idx(trim_ws(input@))));
    }
    let un = tn - split;
    let mut si_f: u64 = 1;
    let mut rest: &str = unit_text;
    if un > 0 {
        let c0 = unit_text.get_char(0);
        let single = unit_text.substring_char(0, 1);
        proof {
            assert(single@ =~= seq![unit_text@[0]]);
        }
        match si_factor(c0) {
            Some(f) => {
                if !has_single_unit(additional_units, single, Ghost(c0)) {
                    si_f = f;
                    rest = unit_text.substring_char(1, un);
                }
            },
            None => {},
        }
    }
    proof {
        let sc = si_consume(unit_text@, uv);
        assert(sc.0 =~= rest@);
        assert(sc.1 == si_f);
        assert(1 <= si_f <= 1_000_000_000_000_000_000);
    }
    let mut add_f: u64 = 1;
    if !rest.is_empty() {
        match find_unit(additional_units, rest) {
            Some(f) => {
                add_f = f;
            },
            None => {
                return Err(Error::InvalidUnit(unit_text));
            },
        }
    }
    let value = trim(value_raw);
    let r = scale(value, si_f, add_f);
    proof {
        let sc = si_consume(unit_text@, uv);
        let af = if sc.0.len() == 0 {
            Some(1u64)
        } else {
            unit_factor(uv, sc.0)
        };
        assert(af == Some(add_f));
        assert(value@ == trim_ws(trim_ws(input@).take(alpha_split_idx(trim_ws(input@)))));
    }
    r
}

/// Any input containing a non-ASCII character is rejected with `NotAscii`,
/// whatever else it contains.
pub proof fn lemma_non_ascii_rejected(input: Seq<char>, units: Seq<(Seq<char>, u64)>)
    requires
        !is_ascii_chars(input),
    ensures
        spec_parse(input, units) == Err::<u64, ErrorModel>(ErrorModel::NotAscii),
{
}

/// Whitespace before or after the input does not change what it parses to.
pub proof fn lemma_parse_outer_ws(input: Seq<char>, units: Seq<(Seq<char>, u64)>, c: char)
    requires
        crate::text::is_ws_char(c),
    ensures
        spec_parse(seq![c] + input, units) == spec_parse(input, units),
        spec_parse(input + seq![c], units) == spec_parse(input, units),
{
    crate::text::lemma_trim_ws_pad(input, c);
    let x = seq![c] + input;
    let y = input + seq![c];
    assert('\0' <= c <= '\u{7f}');
    assert(forall|i: int| 0 <= i < input.len() ==> x[i + 1] == input[i]);
    assert(forall|i: int| 0 <= i < input.len() ==> y[i] == input[i]);
    assert(is_ascii_chars(x) == is_ascii_chars(input)) by {
        if is_ascii_chars(input) {
            assert(forall|i: int| 0 <= i < x.len() ==> '\0' <= #[trigger] x[i] <= '\u{7f}') by {
                assert(forall|i: int| 1 <= i < x.len() ==> x[i] == input[i - 1]);
            }
        } else {
            let i = choose|i: int| 0 <= i < input.len() && !('\0' <= #[trigger] input[i]
                <= '\u{7f}');
            assert(x[i + 1] == input[i]);
        }
    }
    assert(is_ascii_chars(y) == is_ascii_chars(input)) by {
        if is_ascii_chars(input) {
            assert(forall|i: int| 0 <= i < y.len() ==> '\0' <= #[trigger] y[i] <= '\u{7f}') by {
                assert(forall|i: int| 0 <= i < y.len() - 1 ==> y[i] == input[i]);
                assert(y[y.len() - 1] == c);
            }
        } else {
            let i = choose|i: int| 0 <= i < input.len() && !('\0' <= #[trigger] input[i]
                <= '\u{7f}');
            assert(y[i] == input[i]);
        }
    }
}

/// Whitespace between the value text and the unit text does not change what
/// an input parses to: `a` is the text before the first letter, `b` starts
/// with it.
pub proof fn lemma_parse_inner_ws(
    a: Seq<char>,
    b: Seq<char>,
    units: Seq<(Seq<char>, u64)>,
    c: char,
)
    requires
        crate::text::is_ws_char(c),
        forall|i: int| 0 <= i < a.len() ==> !crate::text::is_alpha_char(a[i]),
        b.len() > 0,
        crate::text::is_alpha_char(b[0]),
    ensures
        spec_parse(a + seq![c] + b, units) == spec_parse(a + b, units),
{
    let x = a + seq![c] + b;
    let y = a + b;
    assert('\0' <= c <= '\u{7f}');
    assert(x =~= a + (seq![c] + b));
    assert(forall|i: int| 0 <= i < a.len() ==> x[i] == a[i] && y[i] == a[i]);
    assert(x[a.len() as int] == c);
    assert(forall|i: int|
        0 <= i < b.len() ==> x[a.len() + 1 + i] == b[i] && y[a.len() + i] == b[i]);
    assert(is_ascii_chars(x) == is_ascii_chars(y)) by {
        if is_ascii_chars(y) {
            assert(forall|i: int| 0 <= i < x.len() ==> '\0' <= #[trigger] x[i] <= '\u{7f}') by {
                assert(forall|i: int| 0 <= i < a.len() ==> x[i] == y[i]);
                assert(forall|i: int|
                    a.len() + 1 <= i < x.len() ==> x[i] == y[i - 1] && 0 <= i - 1 < y.len());
            }
        } else {
            let i = choose|i: int| 0 <= i < y.len() && !('\0' <= #[trigger] y[i] <= '\u{7f}');
            if i < a.len() {
                assert(x[i] == y[i]);
            } else {
                assert(x[i + 1] == y[i]);
            }
        }
    }
    if is_ascii_chars(y) {
        crate::text::lemma_drop_leading_ws_concat(a, seq![c] + b);
        crate::text::lemma_drop_leading_ws_concat(a, b);
        crate::text::lemma_drop_leading_ws_suffix(a);
        let al = drop_leading_ws(a);
        assert(forall|i: int|
            0 <= i < al.len() ==> al[i] == a[a.len() - al.len() + i] && !crate::text::is_alpha_char(
                al[i],
            ));
        assert(!crate::text::is_ws_char(b[0]));
        crate::text::lemma_drop_trailing_ws_keeps(b, 0);
        crate::text::lemma_drop_trailing_ws_prefix(b);
        let bt = drop_trailing_ws(b);
        assert(bt[0] == b[0]);
        assert(forall|i: int| 0 <= i < bt.len() ==> bt[i] == b[i]);
        if al.len() > 0 {
            assert(drop_leading_ws(x) == al + (seq![c] + b));
            assert(drop_leading_ws(y) == al + b);
            crate::text::lemma_drop_trailing_ws_concat(al + seq![c], b);
            crate::text::lemma_drop_trailing_ws_concat(al, b);
            assert((al + seq![c]) + b =~= al + (seq![c] + b));
            let tx = trim_ws(x);
            let ty = trim_ws(y);
            assert(tx == (al + seq![c]) + bt);
            assert(ty == al + bt);
            assert(forall|j: int| 0 <= j < al.len() ==> tx[j] == al[j] && ty[j] == al[j]);
            assert(tx[al.len() as int] == c);
            assert(forall|j: int|
                0 <= j < bt.len() ==> tx[al.len() + 1 + j] == bt[j] && ty[al.len() + j] == bt[j]);
            assert(!crate::text::is_alpha_char(c));
            crate::text::lemma_alpha_split_idx_at(tx, al.len() as int + 1);
            crate::text::lemma_alpha_split_idx_at(ty, al.len() as int);
            assert(tx.skip(al.len() as int + 1) =~= bt);
            assert(ty.skip(al.len() as int) =~= bt);
            assert(tx.take(al.len() as int + 1) =~= al + seq![c]);
            assert(ty.take(al.len() as int) =~= al);
            crate::text::lemma_trim_ws_pad(al, c);
        } else {
            assert(drop_leading_ws(x) == drop_leading_ws(seq![c] + b));
            assert((seq![c] + b)[0] == c);
            assert((seq![c] + b).drop_first() =~= b);
            assert(drop_leading_ws(seq![c] + b) == drop_leading_ws(b));
            assert(drop_leading_ws(y) == drop_leading_ws(b));
        }
    }
}

/// The prefix letter appended for a thousands-group exponent.
pub open spec fn prefix_chars(e: nat) -> Seq<char> {
    if e == 0 {
        Seq::<char>::empty()
    } else if e == 1 {
        seq!['k']
    } else if e == 2 {
        seq!['M']
    } else if e == 3 {
        seq!['G']
    } else if e == 4 {
        seq!['T']
    } else if e == 5 {
        seq!['P']
    } else {
        seq!['E']
    }
}

/// The model of formatting: the digits of the value are split so that one to
/// three of them land before the point; of the rest, trailing zeros are
/// stripped and at most two digits are kept, truncated, never rounded; then
/// the prefix letter of the dropped thousands groups is appended.
pub open spec fn spec_format(v: u64) -> Seq<char> {
    if v == 0 {
        seq!['0']
    } else {
        let digs = dec_digits(v as nat);
        let n = digs.len() as int;
        let split = (n - 1) % 3 + 1;
        let frac = strip_trailing_zeros(digs.skip(split));
        let frac2 = frac.take(
            if frac.len() > 2 {
                2
            } else {
                frac.len() as int
            },
        );
        digs.take(split) + (if frac2.len() > 0 {
            seq!['.'] + frac2
        } else {
            Seq::<char>::empty()
        }) + prefix_chars(((n - 1) / 3) as nat)
    }
}

/// The characters the formatter emits.
pub open spec fn is_output_char(c: char) -> bool {
    crate::digits::is_digit_char(c) || c == '.' || c == 'k' || c == 'M' || c == 'G' || c == 'T'
        || c == 'P' || c == 'E'
}

/// Append one output character to the string being built.
fn push_char(out: &mut String, c: char)
    requires
        is_output_char(c),
    ensures
        final(out)@ == old(out)@.push(c),
{
    proof {
        reveal_strlit("0");
        reveal_strlit("1");
        reveal_strlit("2");
        reveal_strlit("3");
        reveal_strlit("4");
        reveal_strlit("5");
        reveal_strlit("6");
        reveal_strlit("7");
        reveal_strlit("8");
        reveal_strlit("9");
        reveal_strlit(".");
        reveal_strlit("k");
        reveal_strlit("M");
        reveal_strlit("G");
        reveal_strlit("T");
        reveal_strlit("P");
        reveal_strlit("E");
    }
    let piece: &str = if c == '0' {
        "0"
    } else if c == '1' {
        "1"
    } else if c == '2' {
        "2"
    } else if c == '3' {
        "3"
    } else if c == '4' {
        "4"
    } else if c == '5' {
        "5"
    } else if c == '6' {
        "6"
    } else if c == '7' {
        "7"
    } else if c == '8' {
        "8"
    } else if c == '9' {
        "9"
    } else if c == '.' {
        "."
    } else if c == 'k' {
        "k"
    } else if c == 'M' {
        "M"
    } else if c == 'G' {
        "G"
    } else if c == 'T' {
        "T"
    } else if c == 'P' {
        "P"
    } else {
        "E"
    };
    assert(piece@ =~= seq![c]);
    out.append(piece);
    assert(out@ =~= old(out)@.push(c));
}

/// Format an integer into an SI prefixed string.
///
/// The largest prefix under which the integer part is nonzero is used, and at
/// most two fraction digits are kept: trailing zeros are stripped and the
/// rest is truncated, never rounded, so the rendering never overstates the
/// value.
pub fn format(input: u64) -> (r: String)
    ensures
        r@ == spec_format(input),
{
    if input == 0 {
        let r = String::from_str("0");
        proof {
            reveal_strlit("0");
            assert(r@ =~= seq!['0']);
        }
        return r;
    }
    proof {
        lemma_dec_digits(input as nat);
    }
    let digs = u64_digits(input);
    let n = digs.len();
    let split = (n - 1) % 3 + 1;
    let e = (n - 1) / 3;
    let ghost dv = digs@;
    let mut out = String::new();
    let mut i: usize = 0;
    while i < split
        invariant
            0 <= i <= split <= n,
            n == dv.len(),
            digs@ == dv,
            all_digits(dv),
            out@ == dv.take(i as int),
        decreases split - i,
    {
        proof {
            assert(dv.take(i + 1) =~= dv.take(i as int).push(dv[i as int]));
        }
        let c = digs[i];
        push_char(&mut out, c);
        i = i + 1;
    }
    let mut end = n;
    while end > split && digs[end - 1] == '0'
        invariant
            split <= end <= n,
            n == dv.len(),
            digs@ == dv,
            forall|j: int| end <= j < n ==> dv[j] == '0',
        decreases end,
    {
        end = end - 1;
    }
    let ghost frac_raw = dv.skip(split as int);
    proof {
        assert(forall|j: int|
            end - split <= j < frac_raw.len() ==> frac_raw[j] == #[trigger] dv[j + split]
                && dv[j + split] == '0');
        assert(end - split == 0 || frac_raw[end - split - 1] != '0');
        lemma_strip_trailing_zeros_at(frac_raw, end - split);
    }
    let ghost frac = strip_trailing_zeros(frac_raw);
    if end > split {
        push_char(&mut out, '.');
        let take = if end - split > 2 {
            2
        } else {
            end - split
        };
        let mut j = split;
        while j < split + take
            invariant
                split <= j <= split + take,
                split + take <= n,
                n == dv.len(),
                digs@ == dv,
                all_digits(dv),
                out@ == dv.take(split as int) + seq!['.'] + dv.subrange(split as int, j as int),
            decreases split + take - j,
        {
            proof {
                assert(dv.subrange(split as int, j + 1) =~= dv.subrange(
                    split as int,
                    j as int,
                ).push(dv[j as int]));
            }
            let c = digs[j];
            push_char(&mut out, c);
            j = j + 1;
        }
        proof {
            let tk = take as int;
            assert(frac =~= frac_raw.take(end - split));
            assert(frac.take(tk) =~= dv.subrange(split as int, split + tk));
            assert(out@ =~= dv.take(split as int) + (seq!['.'] + frac.take(tk)));
        }
    } else {
        proof {
            assert(frac.len() == 0);
            assert(out@ =~= dv.take(split as int) + Seq::<char>::empty());
        }
    }
    let r = if e == 0 {
        out
    } else if e == 1 {
        out.concat("k")
    } else if e == 2 {
        out.concat("M")
    } else if e == 3 {
        out.concat("G")
    } else if e == 4 {
        out.concat("T")
    } else if e == 5 {
        out.concat("P")
    } else {
        out.concat("E")
    };
    proof {
        reveal_strlit("k");
        reveal_strlit("M");
        reveal_strlit("G");
        reveal_strlit("T");
        reveal_strlit("P");
        reveal_strlit("E");
        assert(r@ =~= spec_format(input));
    }
    r
}

/// The thousands-group exponent the formatter picks for a value.
pub open spec fn si_exponent(v: u64) -> nat {
    (((dec_digits(v as nat).len() - 1) as int) / 3) as nat
}

/// The precision the formatter may drop: nothing below a thousand, and less
/// than one unit of the third fraction digit otherwise.
pub open spec fn format_gap(v: u64) -> nat {
    if si_exponent(v) == 0 {
        1
    } else {
        pow10((3 * si_exponent(v) - 2) as nat)
    }
}

/// Every character the formatter emits is a digit, a dot, or a prefix letter.
pub proof fn lemma_format_chars(v: u64)
    ensures
        forall|i: int|
            0 <= i < spec_format(v).len() ==> is_output_char(#[trigger] spec_format(v)[i]),
{
    let f = spec_format(v);
    if v == 0 {
        assert(f == seq!['0']);
        assert(f[0] == '0');
    } else {
        lemma_dec_digits(v as nat);
        let digs = dec_digits(v as nat);
        let n = digs.len() as int;
        let split = (n - 1) % 3 + 1;
        let e = ((n - 1) / 3) as nat;
        let frac = strip_trailing_zeros(digs.skip(split));
        crate::digits::lemma_strip_trailing_zeros_props(digs.skip(split));
        assert(all_digits(digs.skip(split))) by {
            assert(forall|j: int|
                0 <= j < digs.skip(split).len() ==> digs.skip(split)[j] == digs[j + split]);
        }
        let frac2 = frac.take(
            if frac.len() > 2 {
                2
            } else {
                frac.len() as int
            },
        );
        let mid = if frac2.len() > 0 {
            seq!['.'] + frac2
        } else {
            Seq::<char>::empty()
        };
        let pc = prefix_chars(e);
        assert(f == digs.take(split) + mid + pc);
        assert(forall|j: int| 0 <= j < pc.len() ==> is_output_char(#[trigger] pc[j]));
        assert(forall|i: int| 0 <= i < f.len() ==> is_output_char(#[trigger] f[i])) by {
            assert(forall|i: int|
                0 <= i < split ==> f[i] == digs.take(split)[i] && digs.take(split)[i] == digs[i]);
            assert(forall|i: int|
                split <= i < split + mid.len() ==> f[i] == mid[i - split]);
            assert(forall|j: int|
                1 <= j < mid.len() ==> mid[j] == frac2[j - 1] && frac2[j - 1] == frac[j - 1]);
            assert(forall|i: int|
                split + mid.len() <= i < f.len() ==> f[i] == pc[i - split - mid.len()]);
        }
    }
}

/// Formatting never overstates. Parsing a formatted value back always
/// succeeds, the result is at most the original value, and the shortfall is
/// below the precision of the digits the formatter dropped: exact below a
/// thousand, less than one unit of the third fraction digit otherwise.
#[verifier::rlimit(100)]
#[verifier::spinoff_prover]
pub proof fn lemma_format_parse_round_trip(v: u64)
    ensures
        spec_parse(spec_format(v), Seq::<(Seq<char>, u64)>::empty()) is Ok,
        spec_parse(spec_format(v), Seq::<(Seq<char>, u64)>::empty())->Ok_0 <= v,
        v - spec_parse(spec_format(v), Seq::<(Seq<char>, u64)>::empty())->Ok_0 < format_gap(v),
{
    let units = Seq::<(Seq<char>, u64)>::empty();
    let f = spec_format(v);
    lemma_format_chars(v);
    assert(is_ascii_chars(f)) by {
        assert(forall|i: int| 0 <= i < f.len() ==> '\0' <= #[trigger] f[i] <= '\u{7f}');
    }
    assert(forall|i: int| 0 <= i < f.len() ==> !crate::text::is_ws_char(#[trigger] f[i]));
    crate::text::lemma_trim_ws_id(f);
    lemma_pow10_values();
    if v == 0 {
        assert(f == seq!['0']);
        assert(!crate::text::is_alpha_char(f[0]));
        crate::text::lemma_alpha_split_idx_at(f, 1);
        assert(f.skip(1) =~= Seq::<char>::empty());
        assert(f.take(1) =~= f);
        crate::text::lemma_dot_split_idx_at(f, 1);
        assert(all_digits(f));
        assert(digits_val(f) == 0) by {
            assert(f.drop_last() =~= Seq::<char>::empty());
            assert(crate::digits::digit_val('0') == 0);
        }
        assert(strip_trailing_zeros(Seq::<char>::empty()) =~= Seq::<char>::empty());
        assert(scaled_value(f, Seq::<char>::empty(), 1) == 0) by {
            assert(digits_val(Seq::<char>::empty()) == 0);
            assert(0int / 1int == 0);
        }
    } else {
        lemma_dec_digits(v as nat);
        let digs = dec_digits(v as nat);
        let n = digs.len() as int;
        let split = (n - 1) % 3 + 1;
        let e = (n - 1) / 3;
        assert(n - 1 == 3 * e + (split - 1));
        assert(n <= 20) by {
            if n >= 21 {
                lemma_pow10_mono(20, (n - 1) as nat);
                assert(v >= pow10((n - 1) as nat));
            }
        }
        assert(0 <= e <= 6);
        let skip0 = digs.skip(split);
        assert(all_digits(skip0)) by {
            assert(forall|j: int| 0 <= j < skip0.len() ==> skip0[j] == digs[j + split]);
        }
        let frac = strip_trailing_zeros(skip0);
        crate::digits::lemma_strip_trailing_zeros_props(skip0);
        let flen = frac.len() as int;
        let k = if flen > 2 {
            2
        } else {
            flen
        };
        let frac2 = frac.take(k);
        let mid = if frac2.len() > 0 {
            seq!['.'] + frac2
        } else {
            Seq::<char>::empty()
        };
        let pc = prefix_chars(e as nat);
        assert(f == digs.take(split) + mid + pc);
        let vlen = split + mid.len() as int;
        assert(f.len() == vlen + pc.len());
        let value = digs.take(split) + mid;
        assert(f.take(vlen) =~= value);
        assert(f.skip(vlen) =~= pc);
        assert(forall|i: int| 0 <= i < vlen ==> value[i] == #[trigger] f[i]);
        assert(forall|i: int|
            0 <= i < split ==> value[i] == digs.take(split)[i] && digs.take(split)[i] == digs[i]);
        assert(forall|j: int|
            1 <= j < mid.len() ==> value[split + j] == #[trigger] mid[j] && mid[j] == frac2[j - 1]
                && frac2[j - 1] == frac[j - 1]);
        // the split at the first letter falls exactly before the prefix
        assert(forall|i: int| 0 <= i < vlen ==> !crate::text::is_alpha_char(#[trigger] f[i])) by {
            assert(forall|i: int|
                0 <= i < vlen ==> crate::digits::is_digit_char(#[trigger] value[i]) || value[i]
                    == '.');
        }
        if e > 0 {
            assert(crate::text::is_alpha_char(f[vlen])) by {
                assert(f[vlen] == pc[0]);
            }
        }
        crate::text::lemma_alpha_split_idx_at(f, vlen);
        crate::text::lemma_trim_ws_id(value);
        // the unit text resolves to the prefix factor
        let sc = si_consume(pc, units);
        let m: nat = (sc.1 as nat) * 1;
        if e == 0 {
            assert(pc =~= Seq::<char>::empty());
            assert(m == 1);
            assert(m == pow10((3 * e) as nat));
        } else {
            assert(!unit_has_single(units, pc[0]));
            assert(sc.0 =~= Seq::<char>::empty()) by {
                assert(pc.skip(1) =~= Seq::<char>::empty());
            }
            assert(m == pow10((3 * e) as nat)) by {
                lemma_pow10_adds(3, 3);
                lemma_pow10_adds(6, 3);
                lemma_pow10_adds(9, 3);
                lemma_pow10_adds(12, 3);
                lemma_pow10_adds(15, 3);
            }
        }
        assert(sc.0.len() == 0);
        // the value text scales back to within the dropped precision
        let p3e = pow10((3 * e) as nat);
        let iv = digits_val(digs.take(split));
        let rem = digits_val(skip0);
        crate::digits::lemma_digits_val_split(digs, split);
        assert(v as nat == iv * p3e + rem) by {
            assert((n - split) as nat == (3 * e) as nat);
        }
        lemma_digits_val_bound(skip0);
        assert(rem < p3e) by {
            assert(skip0.len() as nat == (3 * e) as nat);
        }
        assert(iv <= v) by {
            lemma_pow10_pos((3 * e) as nat);
            assert(iv * p3e >= iv * 1) by (nonlinear_arith)
                requires
                    p3e >= 1,
                    iv >= 0,
            ;
        }
        assert(digits_val(frac) * pow10((skip0.len() - frac.len()) as nat) == rem);
        if mid.len() == 0 {
            // no fraction was kept because the dropped digits were all zeros
            assert(frac2.len() == 0);
            assert(flen == 0);
            assert(digits_val(frac) == 0) by {
                assert(frac =~= Seq::<char>::empty());
            }
            assert(rem == 0);
            assert(value =~= digs.take(split));
            crate::text::lemma_dot_split_idx_at(value, value.len() as int);
            assert(value.take(value.len() as int) =~= value);
            assert(strip_trailing_zeros(Seq::<char>::empty()) =~= Seq::<char>::empty());
            let w = scaled_value(value, Seq::<char>::empty(), m);
            assert(w == iv * p3e) by {
                assert(digits_val(Seq::<char>::empty()) == 0);
                assert(0int / 1int == 0);
            }
            assert(w == v);
            assert(spec_parse(f, units) == Ok::<u64, ErrorModel>(v));
            assert(format_gap(v) >= 1) by {
                if si_exponent(v) > 0 {
                    lemma_pow10_pos((3 * si_exponent(v) - 2) as nat);
                }
            }
        } else {
            // the kept fraction digits scale back exactly; only the digits
            // beyond them were dropped
            assert(frac2.len() == k && k >= 1);
            assert(value[split as int] == '.');
            crate::text::lemma_dot_split_idx_at(value, split);
            assert(value.take(split) =~= digs.take(split));
            assert(value.skip(split + 1) =~= frac2);
            let g = strip_trailing_zeros(frac2);
            crate::digits::lemma_strip_trailing_zeros_props(frac2);
            let glen = g.len() as int;
            assert(all_digits(frac2)) by {
                assert(forall|j: int| 0 <= j < k ==> frac2[j] == frac[j]);
            }
            assert(all_digits(g));
            crate::digits::lemma_digits_val_split(frac, k);
            let r1 = digits_val(frac.skip(k));
            lemma_digits_val_bound(frac.skip(k));
            assert(digits_val(frac) == digits_val(frac2) * pow10((flen - k) as nat) + r1);
            assert(digits_val(g) * pow10((k - glen) as nat) == digits_val(frac2));
            // the fraction term is an exact multiple
            lemma_pow10_adds(glen as nat, (3 * e - glen) as nat);
            assert(glen <= 2 < 3 * e || e == 0);
            assert(e > 0) by {
                if e == 0 {
                    assert(skip0.len() == 0);
                    assert(frac =~= Seq::<char>::empty());
                }
            }
            let pg = pow10(glen as nat);
            let ph = pow10((3 * e - glen) as nat);
            assert(p3e == pg * ph);
            lemma_pow10_pos(glen as nat);
            let w = scaled_value(digs.take(split), g, m);
            assert((digits_val(g) * m) / pg == digits_val(g) * ph) by {
                assert(digits_val(g) * (pg * ph) == (digits_val(g) * ph) * pg)
                    by (nonlinear_arith);
                vstd::arithmetic::div_mod::lemma_div_by_multiple(
                    (digits_val(g) * ph) as int,
                    pg as int,
                );
            }
            assert(w == iv * p3e + digits_val(g) * ph);
            // reassemble the remainder
            let pf = pow10((3 * e - flen) as nat);
            assert(rem == digits_val(frac) * pf);
            assert(rem == digits_val(g) * ph + r1 * pf) by {
                lemma_pow10_adds((k - glen) as nat, (flen - k) as nat);
                lemma_pow10_adds((flen - glen) as nat, (3 * e - flen) as nat);
                assert((digits_val(g) * pow10((k - glen) as nat) * pow10((flen - k) as nat) + r1)
                    * pf == digits_val(g) * (pow10((flen - glen) as nat) * pf) + r1 * pf)
                    by (nonlinear_arith)
                    requires
                        pow10((k - glen) as nat) * pow10((flen - k) as nat) == pow10(
                            (flen - glen) as nat,
                        ),
                ;
                assert(pow10((flen - glen) as nat) * pf == ph);
            }
            assert(w + r1 * pf == v);
            assert(w <= v) by {
                vstd::arithmetic::mul::lemma_mul_nonnegative(r1 as int, pf as int);
            }
            // bound the dropped digits
            assert(v - w < format_gap(v)) by {
                assert(r1 * pf < pow10((flen - k) as nat) * pf) by {
                    if r1 < pow10((flen - k) as nat) {
                        lemma_pow10_pos((3 * e - flen) as nat);
                        lemma_mul_strict_inequality(
                            r1 as int,
                            pow10((flen - k) as nat) as int,
                            pf as int,
                        );
                    }
                }
                lemma_pow10_adds((flen - k) as nat, (3 * e - flen) as nat);
                assert(pow10((flen - k) as nat) * pf == pow10((3 * e - k) as nat));
                assert(si_exponent(v) == e);
                if k == 2 {
                    assert(pow10((3 * e - k) as nat) == format_gap(v));
                } else {
                    assert(k == flen);
                    assert(r1 == 0) by {
                        assert(frac.skip(k) =~= Seq::<char>::empty());
                    }
                    assert(v - w == 0);
                    lemma_pow10_pos((3 * si_exponent(v) - 2) as nat);
                }
            }
            // every check on the way to the result passes
            assert(digits_val(g) <= digits_val(frac2));
            lemma_digits_val_bound(frac2);
            assert(digits_val(frac2) < pow10(k as nat) && pow10(k as nat) <= 100) by {
                lemma_pow10_mono(k as nat, 2);
            }
            assert(digs.take(split).len() > 0);
            assert(all_digits(digs.take(split)));
            assert(iv <= u64::MAX);
            assert(w <= u64::MAX);
            assert(spec_scale(value, m) == Ok::<u64, ErrorModel>(w as u64));
            assert(spec_parse(f, units) == Ok::<u64, ErrorModel>(w as u64));
        }
    }
}

} // verus!
