//! Decimal digit strings and their values: reading a digit string as a `u64`,
//! rendering a `u64` as its digit string, and powers of ten. The sequence-level
//! definitions here are the vocabulary the parser and formatter contracts are
//! written in.

use vstd::prelude::*;

verus! {

use vstd::string::StrSliceExecFns;

use crate::error::IntErrorCause;

/// Ten to the given power.
pub open spec fn pow10(e: nat) -> nat
    decreases e,
{
    if e == 0 {
        1
    } else {
        10 * pow10((e - 1) as nat)
    }
}

/// An ASCII decimal digit.
pub open spec fn is_digit_char(c: char) -> bool {
    '0' <= c && c <= '9'
}

/// The numeric value of a digit character; 0 for anything else.
pub open spec fn digit_val(c: char) -> nat {
    if is_digit_char(c) {
        (c as u32 - 48) as nat
    } else {
        0
    }
}

/// The digit character for a value below ten.
pub open spec fn digit_char(d: nat) -> char {
    if d == 0 {
        '0'
    } else if d == 1 {
        '1'
    } else if d == 2 {
        '2'
    } else if d == 3 {
        '3'
    } else if d == 4 {
        '4'
    } else if d == 5 {
        '5'
    } else if d == 6 {
        '6'
    } else if d == 7 {
        '7'
    } else if d == 8 {
        '8'
    } else {
        '9'
    }
}

/// Every character is an ASCII decimal digit.
pub open spec fn all_digits(s: Seq<char>) -> bool {
    forall|i: int| 0 <= i < s.len() ==> is_digit_char(s[i])
}

/// The value named by a digit string, most significant digit first.
pub open spec fn digits_val(s: Seq<char>) -> nat
    decreases s.len(),
{
    if s.len() == 0 {
        0
    } else {
        digits_val(s.drop_last()) * 10 + digit_val(s.last())
    }
}

/// The string with its trailing `0` characters removed.
pub open spec fn strip_trailing_zeros(s: Seq<char>) -> Seq<char>
    decreases s.len(),
{
    if s.len() > 0 && s.last() == '0' {
        strip_trailing_zeros(s.drop_last())
    } else {
        s
    }
}

/// The decimal digit string of a value, most significant digit first, with no
/// leading zeros (a single `0` for zero itself).
pub open spec fn dec_digits(v: nat) -> Seq<char>
    decreases v,
{
    if v < 10 {
        seq![digit_char(v)]
    } else {
        dec_digits(v / 10).push(digit_char(v % 10))
    }
}

pub proof fn lemma_pow10_pos(e: nat)
    ensures
        pow10(e) >= 1,
    decreases e,
{
    if e > 0 {
        lemma_pow10_pos((e - 1) as nat);
    }
}

pub proof fn lemma_pow10_mono(a: nat, b: nat)
    requires
        a <= b,
    ensures
        pow10(a) <= pow10(b),
    decreases b,
{
    if a < b {
        lemma_pow10_mono(a, (b - 1) as nat);
        lemma_pow10_pos((b - 1) as nat);
    }
}

pub proof fn lemma_pow10_adds(a: nat, b: nat)
    ensures
        pow10(a + b) == pow10(a) * pow10(b),
    decreases a,
{
    if a == 0 {
        assert(a + b == b);
        assert(pow10(a) == 1);
        assert(pow10(a + b) == 1 * pow10(b));
    } else {
        lemma_pow10_adds((a - 1) as nat, b);
        assert(pow10(a + b) == 10 * pow10((a + b - 1) as nat));
        assert(pow10(a) == 10 * pow10((a - 1) as nat));
        assert((a + b - 1) as nat == (a - 1) as nat + b);
        assert(pow10((a + b - 1) as nat) == pow10((a - 1) as nat) * pow10(b));
        assert(10 * (pow10((a - 1) as nat) * pow10(b)) == (10 * pow10((a - 1) as nat)) * pow10(
            b,
        )) by (nonlinear_arith);
        assert(pow10(a + b) == pow10(a) * pow10(b));
    }
}

/// The concrete powers of ten up to the largest that fits a `u64`.
pub proof fn lemma_pow10_values()
    ensures
        pow10(0) == 1,
        pow10(1) == 10,
        pow10(2) == 100,
        pow10(3) == 1000,
        pow10(4) == 10_000,
        pow10(5) == 100_000,
        pow10(6) == 1_000_000,
        pow10(7) == 10_000_000,
        pow10(8) == 100_000_000,
        pow10(9) == 1_000_000_000,
        pow10(10) == 10_000_000_000,
        pow10(11) == 100_000_000_000,
        pow10(12) == 1_000_000_000_000,
        pow10(13) == 10_000_000_000_000,
        pow10(14) == 100_000_000_000_000,
        pow10(15) == 1_000_000_000_000_000,
        pow10(16) == 10_000_000_000_000_000,
        pow10(17) == 100_000_000_000_000_000,
        pow10(18) == 1_000_000_000_000_000_000,
        pow10(19) == 10_000_000_000_000_000_000,
{
    assert(pow10(0) == 1);
    assert(pow10(1) == 10);
    assert(pow10(2) == 100);
    assert(pow10(3) == 1000);
    assert(pow10(4) == 10_000);
    assert(pow10(5) == 100_000);
    assert(pow10(6) == 1_000_000);
    assert(pow10(7) == 10_000_000);
    assert(pow10(8) == 100_000_000);
    assert(pow10(9) == 1_000_000_000);
    assert(pow10(10) == 10_000_000_000);
    assert(pow10(11) == 100_000_000_000);
    assert(pow10(12) == 1_000_000_000_000);
    assert(pow10(13) == 10_000_000_000_000);
    assert(pow10(14) == 100_000_000_000_000);
    assert(pow10(15) == 1_000_000_000_000_000);
    assert(pow10(16) == 10_000_000_000_000_000);
    assert(pow10(17) == 100_000_000_000_000_000);
    assert(pow10(18) == 1_000_000_000_000_000_000);
    assert(pow10(19) == 10_000_000_000_000_000_000);
}

/// A digit string names a value below ten to its length.
pub proof fn lemma_digits_val_bound(s: Seq<char>)
    ensures
        digits_val(s) < pow10(s.len()),
    decreases s.len(),
{
    if s.len() == 0 {
    } else {
        lemma_digits_val_bound(s.drop_last());
    }
}

/// Extending a digit string never decreases its value.
pub proof fn lemma_digits_val_take_le(s: Seq<char>, i: int)
    requires
        0 <= i <= s.len(),
    ensures
        digits_val(s.take(i)) <= digits_val(s),
    decreases s.len() - i,
{
    if i == s.len() {
        assert(s.take(i) =~= s);
    } else {
        assert(s.take(i + 1).drop_last() =~= s.take(i));
        assert(s.take(i + 1).last() == s[i]);
        lemma_digits_val_take_le(s, i + 1);
    }
}

/// Splitting a digit string splits its value by the matching power of ten.
pub proof fn lemma_digits_val_split(s: Seq<char>, k: int)
    requires
        0 <= k <= s.len(),
    ensures
        digits_val(s) == digits_val(s.take(k)) * pow10((s.len() - k) as nat) + digits_val(
            s.skip(k),
        ),
    decreases s.len() - k,
{
    if k == s.len() {
        assert(s.take(k) =~= s);
        assert(s.skip(k) =~= Seq::<char>::empty());
        assert(pow10((s.len() - k) as nat) == 1);
        assert(digits_val(Seq::<char>::empty()) == 0);
        assert(digits_val(s) * 1 == digits_val(s));
    } else {
        let s1 = s.drop_last();
        lemma_digits_val_split(s1, k);
        assert(s1.take(k) =~= s.take(k));
        assert(s.skip(k).drop_last() =~= s1.skip(k));
        assert(s.skip(k).last() == s.last());
        let a = digits_val(s.take(k));
        let p = pow10((s1.len() - k) as nat);
        let d = digit_val(s.last());
        assert(pow10((s.len() - k) as nat) == 10 * p);
        assert(digits_val(s) == digits_val(s1) * 10 + d);
        assert(digits_val(s1) == a * p + digits_val(s1.skip(k)));
        assert(digits_val(s.skip(k)) == digits_val(s1.skip(k)) * 10 + d);
        assert((a * p + digits_val(s1.skip(k))) * 10 + d == a * (10 * p) + (digits_val(
            s1.skip(k),
        ) * 10 + d)) by (nonlinear_arith);
    }
}

/// Stripping trailing zeros keeps a prefix and divides out a power of ten.
pub proof fn lemma_strip_trailing_zeros_props(s: Seq<char>)
    ensures
        strip_trailing_zeros(s).len() <= s.len(),
        strip_trailing_zeros(s) == s.take(strip_trailing_zeros(s).len() as int),
        digits_val(strip_trailing_zeros(s)) * pow10((s.len() - strip_trailing_zeros(s).len())
            as nat) == digits_val(s),
        all_digits(s) ==> all_digits(strip_trailing_zeros(s)),
        strip_trailing_zeros(s).len() > 0 ==> strip_trailing_zeros(s).last() != '0',
    decreases s.len(),
{
    let t = strip_trailing_zeros(s);
    if s.len() > 0 && s.last() == '0' {
        let s1 = s.drop_last();
        lemma_strip_trailing_zeros_props(s1);
        assert(s1.take(t.len() as int) =~= s.take(t.len() as int));
        let p = pow10((s1.len() - t.len()) as nat);
        assert(pow10((s.len() - t.len()) as nat) == 10 * p);
        assert(digit_val(s.last()) == 0);
        assert(digits_val(s) == digits_val(s1) * 10);
        assert(digits_val(t) * p == digits_val(s1));
        assert((digits_val(t) * p) * 10 == digits_val(t) * (10 * p)) by (nonlinear_arith);
        assert(forall|i: int| 0 <= i < s.len() - 1 ==> s1[i] == #[trigger] s[i]);
    } else {
        assert(t =~= s.take(t.len() as int));
        assert(pow10((s.len() - t.len()) as nat) == 1);
        assert(digits_val(t) * 1 == digits_val(t));
    }
}

/// Where the trailing zeros start, stripping cuts exactly there.
pub proof fn lemma_strip_trailing_zeros_at(s: Seq<char>, k: int)
    requires
        0 <= k <= s.len(),
        forall|j: int| k <= j < s.len() ==> s[j] == '0',
        k == 0 || s[k - 1] != '0',
    ensures
        strip_trailing_zeros(s) == s.take(k),
    decreases s.len() - k,
{
    if k == s.len() {
        assert(s.take(k) =~= s);
    } else {
        assert(s.last() == s[s.len() - 1]);
        lemma_strip_trailing_zeros_at(s.drop_last(), k);
        assert(s.drop_last().take(k) =~= s.take(k));
    }
}

/// The digit string of a value reads back as that value, is all digits, and
/// has the length its magnitude demands.
pub proof fn lemma_dec_digits(v: nat)
    ensures
        all_digits(dec_digits(v)),
        digits_val(dec_digits(v)) == v,
        dec_digits(v).len() >= 1,
        v < pow10(dec_digits(v).len()),
        v >= pow10((dec_digits(v).len() - 1) as nat) || (v == 0 && dec_digits(v).len() == 1),
    decreases v,
{
    if v < 10 {
        assert(digit_val(digit_char(v)) == v);
        assert(dec_digits(v) == seq![digit_char(v)]);
        assert(dec_digits(v).drop_last() =~= Seq::<char>::empty());
        assert(dec_digits(v).last() == digit_char(v));
        assert(digits_val(dec_digits(v)) == digits_val(Seq::<char>::empty()) * 10 + digit_val(
            digit_char(v),
        ));
        assert(pow10(1) == 10 * pow10(0));
    } else {
        lemma_dec_digits(v / 10);
        let d = dec_digits(v);
        assert(d.drop_last() =~= dec_digits(v / 10));
        assert(digit_val(digit_char(v % 10)) == v % 10);
        let l1 = dec_digits(v / 10).len();
        assert(v / 10 < pow10(l1));
        assert(v == (v / 10) * 10 + v % 10);
        assert((v / 10) * 10 + v % 10 < pow10(l1) * 10) by (nonlinear_arith)
            requires
                v / 10 < pow10(l1),
                v % 10 < 10,
        ;
        assert(pow10(l1) * 10 == 10 * pow10(l1));
        assert(d.len() == l1 + 1);
        assert(pow10(l1 + 1) == 10 * pow10(l1));
        assert(v / 10 >= pow10((l1 - 1) as nat));
        assert((v / 10) * 10 >= pow10((l1 - 1) as nat) * 10) by (nonlinear_arith)
            requires
                v / 10 >= pow10((l1 - 1) as nat),
        ;
    }
}

pub(crate) fn digit_to_char(d: u64) -> (c: char)
    requires
        d < 10,
    ensures
        c == digit_char(d as nat),
{
    match d {
        0 => '0',
        1 => '1',
        2 => '2',
        3 => '3',
        4 => '4',
        5 => '5',
        6 => '6',
        7 => '7',
        8 => '8',
        _ => '9',
    }
}

/// Ten to a power that fits a `u64`.
pub(crate) fn pow10_u64(e: usize) -> (r: u64)
    requires
        e <= 19,
    ensures
        r == pow10(e as nat),
{
    proof {
        lemma_pow10_values();
    }
    let mut r: u64 = 1;
    let mut i: usize = 0;
    while i < e
        invariant
            0 <= i <= e <= 19,
            r == pow10(i as nat),
            pow10(19) == 10_000_000_000_000_000_000,
        decreases e - i,
    {
        proof {
            lemma_pow10_mono((i + 1) as nat, 19);
        }
        r = r * 10;
        i = i + 1;
    }
    r
}

/// Read a digit string as a `u64`; empty reads as zero.
pub(crate) fn parse_digits(s: &str) -> (r: Result<u64, IntErrorCause>)
    ensures
        match r {
            Ok(v) => all_digits(s@) && digits_val(s@) <= u64::MAX && v == digits_val(s@),
            Err(IntErrorCause::InvalidDigit) => !all_digits(s@),
            Err(IntErrorCause::Overflow) => all_digits(s@) && digits_val(s@) > u64::MAX,
        },
{
    let n = s.unicode_len();
    let mut i: usize = 0;
    while i < n
        invariant
            0 <= i <= n,
            n == s@.len(),
            forall|j: int| 0 <= j < i ==> is_digit_char(s@[j]),
        decreases n - i,
    {
        let c = s.get_char(i);
        if c < '0' || c > '9' {
            return Err(IntErrorCause::InvalidDigit);
        }
        i = i + 1;
    }
    let ghost sv = s@;
    let mut acc: u64 = 0;
    let mut i: usize = 0;
    while i < n
        invariant
            0 <= i <= n,
            n == s@.len(),
            all_digits(s@),
            acc == digits_val(s@.take(i as int)),
        decreases n - i,
    {
        let c = s.get_char(i);
        let d = (c as u32 - 48) as u64;
        proof {
            assert(s@.take(i + 1).drop_last() =~= s@.take(i as int));
            assert(s@.take(i + 1).last() == s@[i as int]);
            assert(d == digit_val(s@[i as int]));
        }
        let acc10 = match acc.checked_mul(10) {
            Some(x) => x,
            None => {
                proof {
                    lemma_digits_val_take_le(s@, i + 1);
                }
                return Err(IntErrorCause::Overflow);
            },
        };
        let next = match acc10.checked_add(d) {
            Some(x) => x,
            None => {
                proof {
                    lemma_digits_val_take_le(s@, i + 1);
                }
                return Err(IntErrorCause::Overflow);
            },
        };
        acc = next;
        i = i + 1;
    }
    proof {
        assert(s@.take(n as int) =~= s@);
    }
    Ok(acc)
}

/// The decimal digit characters of a value, most significant first.
pub(crate) fn u64_digits(v: u64) -> (digs: Vec<char>)
    ensures
        digs@ == dec_digits(v as nat),
    decreases v,
{
    if v < 10 {
        let mut digs: Vec<char> = Vec::new();
        digs.push(digit_to_char(v));
        proof {
            assert(digs@ =~= dec_digits(v as nat));
        }
        digs
    } else {
        let mut digs = u64_digits(v / 10);
        digs.push(digit_to_char(v % 10));
        proof {
            assert(digs@ =~= dec_digits(v as nat));
        }
        digs
    }
}

} // verus!
