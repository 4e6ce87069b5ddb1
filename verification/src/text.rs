//! Character classes and the small string-scanning steps the parser is built
//! from: whitespace trimming, locating the first letter, locating the first
//! dot, and plain string equality. Each executable step is specified against
//! a sequence-level model defined here.

use vstd::prelude::*;

verus! {

use vstd::string::StrSliceExecFns;

/// The whitespace characters that trimming removes: the ASCII characters for
/// which Rust's `char::is_whitespace` holds.
pub open spec fn is_ws_char(c: char) -> bool {
    c == ' ' || c == '\t' || c == '\n' || c == '\r' || c == '\u{b}' || c == '\u{c}'
}

/// An ASCII letter.
pub open spec fn is_alpha_char(c: char) -> bool {
    ('a' <= c && c <= 'z') || ('A' <= c && c <= 'Z')
}

/// The sequence with its leading whitespace removed.
pub open spec fn drop_leading_ws(s: Seq<char>) -> Seq<char>
    decreases s.len(),
{
    if s.len() > 0 && is_ws_char(s[0]) {
        drop_leading_ws(s.drop_first())
    } else {
        s
    }
}

/// The sequence with its trailing whitespace removed.
pub open spec fn drop_trailing_ws(s: Seq<char>) -> Seq<char>
    decreases s.len(),
{
    if s.len() > 0 && is_ws_char(s.last()) {
        drop_trailing_ws(s.drop_last())
    } else {
        s
    }
}

/// The sequence with whitespace removed from both ends.
pub open spec fn trim_ws(s: Seq<char>) -> Seq<char> {
    drop_trailing_ws(drop_leading_ws(s))
}

/// The index of the first ASCII letter, or the length when there is none.
pub open spec fn alpha_split_idx(s: Seq<char>) -> int
    decreases s.len(),
{
    if s.len() == 0 {
        0
    } else if is_alpha_char(s[0]) {
        0
    } else {
        1 + alpha_split_idx(s.drop_first())
    }
}

/// The index of the first `.`, or the length when there is none.
pub open spec fn dot_split_idx(s: Seq<char>) -> int
    decreases s.len(),
{
    if s.len() == 0 {
        0
    } else if s[0] == '.' {
        0
    } else {
        1 + dot_split_idx(s.drop_first())
    }
}

/// Whether the character occurs in the sequence.
pub open spec fn seq_contains_char(s: Seq<char>, c: char) -> bool {
    exists|i: int| 0 <= i < s.len() && s[i] == c
}

proof fn lemma_drop_leading_ws_at(s: Seq<char>, k: int)
    requires
        0 <= k <= s.len(),
        forall|j: int| 0 <= j < k ==> is_ws_char(s[j]),
        k == s.len() || !is_ws_char(s[k]),
    ensures
        drop_leading_ws(s) == s.skip(k),
    decreases k,
{
    if k == 0 {
        assert(s.skip(0) =~= s);
    } else {
        lemma_drop_leading_ws_at(s.drop_first(), k - 1);
        assert(s.drop_first().skip(k - 1) =~= s.skip(k));
    }
}

proof fn lemma_drop_trailing_ws_at(s: Seq<char>, k: int)
    requires
        0 <= k <= s.len(),
        forall|j: int| k <= j < s.len() ==> is_ws_char(s[j]),
        k == 0 || !is_ws_char(s[k - 1]),
    ensures
        drop_trailing_ws(s) == s.take(k),
    decreases s.len() - k,
{
    if k == s.len() {
        assert(s.take(k) =~= s);
    } else {
        assert(s.last() == s[s.len() - 1]);
        lemma_drop_trailing_ws_at(s.drop_last(), k);
        assert(s.drop_last().take(k) =~= s.take(k));
    }
}

pub proof fn lemma_alpha_split_idx_at(s: Seq<char>, k: int)
    requires
        0 <= k <= s.len(),
        forall|j: int| 0 <= j < k ==> !is_alpha_char(s[j]),
        k == s.len() || is_alpha_char(s[k]),
    ensures
        alpha_split_idx(s) == k,
    decreases k,
{
    if k == 0 {
    } else {
        lemma_alpha_split_idx_at(s.drop_first(), k - 1);
    }
}

pub proof fn lemma_dot_split_idx_at(s: Seq<char>, k: int)
    requires
        0 <= k <= s.len(),
        forall|j: int| 0 <= j < k ==> s[j] != '.',
        k == s.len() || s[k] == '.',
    ensures
        dot_split_idx(s) == k,
    decreases k,
{
    if k == 0 {
    } else {
        lemma_dot_split_idx_at(s.drop_first(), k - 1);
    }
}

/// A sequence without whitespace characters trims to itself.
pub proof fn lemma_trim_ws_id(s: Seq<char>)
    requires
        forall|i: int| 0 <= i < s.len() ==> !is_ws_char(s[i]),
    ensures
        trim_ws(s) == s,
{
    lemma_drop_leading_ws_at(s, 0);
    assert(s.skip(0) =~= s);
    lemma_drop_trailing_ws_at(s, s.len() as int);
    assert(s.take(s.len() as int) =~= s);
}

/// How leading-whitespace removal distributes over concatenation.
pub proof fn lemma_drop_leading_ws_concat(s: Seq<char>, t: Seq<char>)
    ensures
        drop_leading_ws(s + t) == if drop_leading_ws(s).len() > 0 {
            drop_leading_ws(s) + t
        } else {
            drop_leading_ws(t)
        },
    decreases s.len(),
{
    if s.len() == 0 {
        assert(s + t =~= t);
    } else if is_ws_char(s[0]) {
        assert((s + t).drop_first() =~= s.drop_first() + t);
        lemma_drop_leading_ws_concat(s.drop_first(), t);
    } else {
        assert((s + t)[0] == s[0]);
    }
}

/// How trailing-whitespace removal distributes over concatenation.
pub proof fn lemma_drop_trailing_ws_concat(s: Seq<char>, t: Seq<char>)
    ensures
        drop_trailing_ws(s + t) == if drop_trailing_ws(t).len() > 0 {
            s + drop_trailing_ws(t)
        } else {
            drop_trailing_ws(s)
        },
    decreases t.len(),
{
    if t.len() == 0 {
        assert(s + t =~= s);
    } else if is_ws_char(t.last()) {
        assert((s + t).last() == t.last());
        assert((s + t).drop_last() =~= s + t.drop_last());
        lemma_drop_trailing_ws_concat(s, t.drop_last());
    } else {
        assert((s + t).last() == t.last());
    }
}

/// Leading-whitespace removal keeps a suffix of the sequence.
pub proof fn lemma_drop_leading_ws_suffix(s: Seq<char>)
    ensures
        drop_leading_ws(s).len() <= s.len(),
        drop_leading_ws(s) == s.skip(s.len() - drop_leading_ws(s).len()),
    decreases s.len(),
{
    if s.len() > 0 && is_ws_char(s[0]) {
        lemma_drop_leading_ws_suffix(s.drop_first());
        let d = drop_leading_ws(s);
        assert(s.drop_first().skip(s.len() - 1 - d.len()) =~= s.skip(s.len() - d.len()));
    } else {
        assert(s.skip(0) =~= s);
    }
}

/// Trailing-whitespace removal keeps a prefix of the sequence.
pub proof fn lemma_drop_trailing_ws_prefix(s: Seq<char>)
    ensures
        drop_trailing_ws(s).len() <= s.len(),
        drop_trailing_ws(s) == s.take(drop_trailing_ws(s).len() as int),
    decreases s.len(),
{
    if s.len() > 0 && is_ws_char(s.last()) {
        lemma_drop_trailing_ws_prefix(s.drop_last());
        let d = drop_trailing_ws(s);
        assert(s.drop_last().take(d.len() as int) =~= s.take(d.len() as int));
    } else {
        assert(s.take(s.len() as int) =~= s);
    }
}

/// Trailing-whitespace removal keeps every position up to a non-whitespace
/// character.
pub proof fn lemma_drop_trailing_ws_keeps(s: Seq<char>, i: int)
    requires
        0 <= i < s.len(),
        !is_ws_char(s[i]),
    ensures
        drop_trailing_ws(s).len() > i,
    decreases s.len(),
{
    if is_ws_char(s.last()) {
        assert(s[i] == s.drop_last()[i]);
        lemma_drop_trailing_ws_keeps(s.drop_last(), i);
    }
}

/// Whitespace added at either end does not change the trimmed text.
pub proof fn lemma_trim_ws_pad(s: Seq<char>, c: char)
    requires
        is_ws_char(c),
    ensures
        trim_ws(seq![c] + s) == trim_ws(s),
        trim_ws(s + seq![c]) == trim_ws(s),
{
    assert((seq![c] + s)[0] == c);
    assert((seq![c] + s).drop_first() =~= s);
    assert(drop_leading_ws(seq![c] + s) == drop_leading_ws(s));
    lemma_drop_leading_ws_concat(s, seq![c]);
    if drop_leading_ws(s).len() > 0 {
        let d = drop_leading_ws(s);
        assert((d + seq![c]).last() == c);
        assert((d + seq![c]).drop_last() =~= d);
        assert(drop_trailing_ws(d + seq![c]) == drop_trailing_ws(d));
    } else {
        assert(drop_leading_ws(s + seq![c]) == drop_leading_ws(seq![c]));
        assert(seq![c].drop_first() =~= Seq::<char>::empty());
        assert(seq![c][0] == c);
        assert(drop_leading_ws(Seq::<char>::empty()) =~= Seq::<char>::empty());
        assert(drop_leading_ws(seq![c]) =~= Seq::<char>::empty());
        assert(drop_trailing_ws(Seq::<char>::empty()) =~= Seq::<char>::empty());
        assert(drop_trailing_ws(drop_leading_ws(s)) =~= Seq::<char>::empty());
    }
}

fn is_ws(c: char) -> (b: bool)
    ensures
        b == is_ws_char(c),
{
    c == ' ' || c == '\t' || c == '\n' || c == '\r' || c == '\u{b}' || c == '\u{c}'
}

fn is_alpha(c: char) -> (b: bool)
    ensures
        b == is_alpha_char(c),
{
    ('a' <= c && c <= 'z') || ('A' <= c && c <= 'Z')
}

/// Remove leading and trailing whitespace; the result is a slice of the input.
pub(crate) fn trim<'a>(s: &'a str) -> (r: &'a str)
    ensures
        r@ == trim_ws(s@),
{
    let n = s.unicode_len();
    let mut lo: usize = 0;
    while lo < n && is_ws(s.get_char(lo))
        invariant
            0 <= lo <= n,
            n == s@.len(),
            forall|j: int| 0 <= j < lo ==> is_ws_char(s@[j]),
        decreases n - lo,
    {
        lo = lo + 1;
    }
    let mut hi: usize = n;
    while hi > lo && is_ws(s.get_char(hi - 1))
        invariant
            lo <= hi <= n,
            n == s@.len(),
            forall|j: int| hi <= j < n ==> is_ws_char(s@[j]),
        decreases hi,
    {
        hi = hi - 1;
    }
    proof {
        lemma_drop_leading_ws_at(s@, lo as int);
        let d = s@.skip(lo as int);
        assert(forall|j: int|
            hi - lo <= j < d.len() ==> is_ws_char(#[trigger] d[j]) == is_ws_char(s@[j + lo]));
        assert(hi - lo == 0 || !is_ws_char(d[hi - lo - 1]));
        lemma_drop_trailing_ws_at(d, hi - lo);
        assert(d.take(hi - lo) =~= s@.subrange(lo as int, hi as int));
    }
    s.substring_char(lo, hi)
}

/// The index of the first ASCII letter, or the length when there is none.
pub(crate) fn find_alpha_split(s: &str) -> (i: usize)
    ensures
        i == alpha_split_idx(s@),
        0 <= i <= s@.len(),
{
    let n = s.unicode_len();
    let mut i: usize = 0;
    while i < n && !is_alpha(s.get_char(i))
        invariant
            0 <= i <= n,
            n == s@.len(),
            forall|j: int| 0 <= j < i ==> !is_alpha_char(s@[j]),
        decreases n - i,
    {
        i = i + 1;
    }
    proof {
        lemma_alpha_split_idx_at(s@, i as int);
    }
    i
}

/// The index of the first `.`, or the length when there is none.
pub(crate) fn find_dot_split(s: &str) -> (i: usize)
    ensures
        i == dot_split_idx(s@),
        0 <= i <= s@.len(),
{
    let n = s.unicode_len();
    let mut i: usize = 0;
    while i < n && s.get_char(i) != '.'
        invariant
            0 <= i <= n,
            n == s@.len(),
            forall|j: int| 0 <= j < i ==> s@[j] != '.',
        decreases n - i,
    {
        i = i + 1;
    }
    proof {
        lemma_dot_split_idx_at(s@, i as int);
    }
    i
}

/// Character-for-character string equality.
pub(crate) fn str_eq(a: &str, b: &str) -> (r: bool)
    ensures
        r == (a@ == b@),
{
    let na = a.unicode_len();
    let nb = b.unicode_len();
    if na != nb {
        proof {
            assert(a@.len() != b@.len());
        }
        return false;
    }
    let mut i: usize = 0;
    while i < na
        invariant
            0 <= i <= na,
            na == a@.len(),
            na == b@.len(),
            forall|j: int| 0 <= j < i ==> a@[j] == b@[j],
        decreases na - i,
    {
        if a.get_char(i) != b.get_char(i) {
            return false;
        }
        i = i + 1;
    }
    proof {
        assert(a@ =~= b@);
    }
    true
}

/// Whether the character occurs in the string.
pub(crate) fn contains_char(s: &str, c: char) -> (r: bool)
    ensures
        r == seq_contains_char(s@, c),
{
    let n = s.unicode_len();
    let mut i: usize = 0;
    while i < n
        invariant
            0 <= i <= n,
            n == s@.len(),
            forall|j: int| 0 <= j < i ==> s@[j] != c,
        decreases n - i,
    {
        if s.get_char(i) == c {
            return true;
        }
        i = i + 1;
    }
    false
}

} // verus!
