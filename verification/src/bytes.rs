//! Byte-level text model: ASCII classification, whitespace trimming,
//! tokenisation, substring search, and decimal number values.
//!
//! All process text (names, command lines, accounting lines) is handled as
//! bytes; the specifications below are the reference meaning of every textual
//! operation in the crate.

use vstd::prelude::*;

verus! {

/// ASCII whitespace: tab, line feed, form feed, carriage return, space.
pub open spec fn is_ascii_ws(b: u8) -> bool {
    b == 9 || b == 10 || b == 12 || b == 13 || b == 32
}

/// ASCII decimal digit `'0'..='9'`.
pub open spec fn is_ascii_digit(b: u8) -> bool {
    48 <= b && b <= 57
}

/// A command-line token delimiter: NUL or ASCII whitespace.
pub open spec fn is_token_delim(b: u8) -> bool {
    b == 0 || is_ascii_ws(b)
}

pub fn is_ws_byte(b: u8) -> (r: bool)
    ensures
        r == is_ascii_ws(b),
{
    b == 9 || b == 10 || b == 12 || b == 13 || b == 32
}

pub fn is_digit_byte(b: u8) -> (r: bool)
    ensures
        r == is_ascii_digit(b),
{
    48 <= b && b <= 57
}

pub fn is_delim_byte(b: u8) -> (r: bool)
    ensures
        r == is_token_delim(b),
{
    b == 0 || is_ws_byte(b)
}

/// `s` without its leading ASCII whitespace.
pub open spec fn trim_start(s: Seq<u8>) -> Seq<u8>
    decreases s.len(),
{
    if s.len() > 0 && is_ascii_ws(s[0]) {
        trim_start(s.drop_first())
    } else {
        s
    }
}

/// `s` without its trailing ASCII whitespace.
pub open spec fn trim_end(s: Seq<u8>) -> Seq<u8>
    decreases s.len(),
{
    if s.len() > 0 && is_ascii_ws(s.last()) {
        trim_end(s.drop_last())
    } else {
        s
    }
}

/// `s` without leading and trailing ASCII whitespace.
pub open spec fn trimmed(s: Seq<u8>) -> Seq<u8> {
    trim_end(trim_start(s))
}

/// `s` without its leading run of token delimiters.
pub open spec fn skip_delims(s: Seq<u8>) -> Seq<u8>
    decreases s.len(),
{
    if s.len() > 0 && is_token_delim(s[0]) {
        skip_delims(s.drop_first())
    } else {
        s
    }
}

/// The longest delimiter-free prefix of `s`.
pub open spec fn delim_token(s: Seq<u8>) -> Seq<u8>
    decreases s.len(),
{
    if s.len() > 0 && !is_token_delim(s[0]) {
        seq![s[0]] + delim_token(s.drop_first())
    } else {
        Seq::empty()
    }
}

/// The longest whitespace-free prefix of `s`.
pub open spec fn ws_token(s: Seq<u8>) -> Seq<u8>
    decreases s.len(),
{
    if s.len() > 0 && !is_ascii_ws(s[0]) {
        seq![s[0]] + ws_token(s.drop_first())
    } else {
        Seq::empty()
    }
}

/// The first whitespace/NUL-delimited token of `s` (empty if `s` holds only
/// delimiters).
pub open spec fn first_token(s: Seq<u8>) -> Seq<u8> {
    delim_token(skip_delims(s))
}

/// If the first `a` bytes of `s` are whitespace and byte `a` (if any) is not,
/// then trimming from the start is exactly dropping those `a` bytes.
pub proof fn lemma_trim_start_at(s: Seq<u8>, a: int)
    requires
        0 <= a <= s.len(),
        forall|k: int| 0 <= k < a ==> is_ascii_ws(#[trigger] s[k]),
        a == s.len() || !is_ascii_ws(s[a]),
    ensures
        trim_start(s) == s.skip(a),
    decreases a,
{
    if a == 0 {
        assert(s.skip(0) =~= s);
    } else {
        assert(is_ascii_ws(s[0]));
        let t = s.drop_first();
        assert(forall|k: int| 0 <= k < a - 1 ==> is_ascii_ws(#[trigger] t[k]));
        lemma_trim_start_at(t, a - 1);
        assert(t.skip(a - 1) =~= s.skip(a));
    }
}

/// If the bytes of `s` from `b` on are whitespace and byte `b - 1` (if any)
/// is not, then trimming from the end is exactly keeping the first `b` bytes.
pub proof fn lemma_trim_end_at(s: Seq<u8>, b: int)
    requires
        0 <= b <= s.len(),
        forall|k: int| b <= k < s.len() ==> is_ascii_ws(#[trigger] s[k]),
        b == 0 || !is_ascii_ws(s[b - 1]),
    ensures
        trim_end(s) == s.take(b),
    decreases s.len(),
{
    if b == s.len() {
        assert(s.take(b) =~= s);
    } else {
        assert(is_ascii_ws(s.last()));
        let t = s.drop_last();
        assert(forall|k: int| b <= k < t.len() ==> is_ascii_ws(#[trigger] t[k]));
        lemma_trim_end_at(t, b);
        assert(t.take(b) =~= s.take(b));
    }
}

/// If the first `a` bytes of `s` are delimiters and byte `a` (if any) is not,
/// then skipping delimiters is exactly dropping those `a` bytes.
pub proof fn lemma_skip_delims_at(s: Seq<u8>, a: int)
    requires
        0 <= a <= s.len(),
        forall|k: int| 0 <= k < a ==> is_token_delim(#[trigger] s[k]),
        a == s.len() || !is_token_delim(s[a]),
    ensures
        skip_delims(s) == s.skip(a),
    decreases a,
{
    if a == 0 {
        assert(s.skip(0) =~= s);
    } else {
        assert(is_token_delim(s[0]));
        let t = s.drop_first();
        assert(forall|k: int| 0 <= k < a - 1 ==> is_token_delim(#[trigger] t[k]));
        lemma_skip_delims_at(t, a - 1);
        assert(t.skip(a - 1) =~= s.skip(a));
    }
}

/// If the first `e` bytes of `s` are not delimiters and byte `e` (if any) is,
/// then the delimiter-free prefix is exactly the first `e` bytes.
pub proof fn lemma_delim_token_at(s: Seq<u8>, e: int)
    requires
        0 <= e <= s.len(),
        forall|k: int| 0 <= k < e ==> !is_token_delim(#[trigger] s[k]),
        e == s.len() || is_token_delim(s[e]),
    ensures
        delim_token(s) == s.take(e),
    decreases e,
{
    if e == 0 {
        assert(s.take(0) =~= Seq::<u8>::empty());
    } else {
        assert(!is_token_delim(s[0]));
        let t = s.drop_first();
        assert(forall|k: int| 0 <= k < e - 1 ==> !is_token_delim(#[trigger] t[k]));
        lemma_delim_token_at(t, e - 1);
        assert(seq![s[0]] + t.take(e - 1) =~= s.take(e));
    }
}

/// If the first `e` bytes of `s` are not whitespace and byte `e` (if any) is,
/// then the whitespace-free prefix is exactly the first `e` bytes.
pub proof fn lemma_ws_token_at(s: Seq<u8>, e: int)
    requires
        0 <= e <= s.len(),
        forall|k: int| 0 <= k < e ==> !is_ascii_ws(#[trigger] s[k]),
        e == s.len() || is_ascii_ws(s[e]),
    ensures
        ws_token(s) == s.take(e),
    decreases e,
{
    if e == 0 {
        assert(s.take(0) =~= Seq::<u8>::empty());
    } else {
        assert(!is_ascii_ws(s[0]));
        let t = s.drop_first();
        assert(forall|k: int| 0 <= k < e - 1 ==> !is_ascii_ws(#[trigger] t[k]));
        lemma_ws_token_at(t, e - 1);
        assert(seq![s[0]] + t.take(e - 1) =~= s.take(e));
    }
}

/// Copies `v[from..to]` into a fresh vector.
pub fn subrange_vec(v: &Vec<u8>, from: usize, to: usize) -> (r: Vec<u8>)
    requires
        from <= to <= v@.len(),
    ensures
        r@ == v@.subrange(from as int, to as int),
{
    let mut out: Vec<u8> = Vec::new();
    let mut i: usize = from;
    while i < to
        invariant
            from <= i <= to <= v@.len(),
            out@ == v@.subrange(from as int, i as int),
        decreases to - i,
    {
        out.push(v[i]);
        i = i + 1;
        proof {
            assert(out@ =~= v@.subrange(from as int, i as int));
        }
    }
    out
}

/// Byte-for-byte equality of two vectors.
pub fn bytes_eq(a: &Vec<u8>, b: &Vec<u8>) -> (r: bool)
    ensures
        r == (a@ == b@),
{
    if a.len() != b.len() {
        return false;
    }
    let mut i: usize = 0;
    while i < a.len()
        invariant
            a@.len() == b@.len(),
            i <= a@.len(),
            forall|k: int| 0 <= k < i ==> a@[k] == b@[k],
        decreases a@.len() - i,
    {
        if a[i] != b[i] {
            return false;
        }
        i = i + 1;
    }
    proof {
        assert(a@ =~= b@);
    }
    true
}

/// `needle` occurs in `hay` starting at position `i`.
pub open spec fn matches_at(hay: Seq<u8>, needle: Seq<u8>, i: int) -> bool {
    0 <= i && i + needle.len() <= hay.len() && forall|j: int|
        0 <= j < needle.len() ==> hay[i + j] == #[trigger] needle[j]
}

/// `needle` occurs somewhere in `hay` (every sequence contains the empty one).
pub open spec fn is_substring(hay: Seq<u8>, needle: Seq<u8>) -> bool {
    exists|i: int| matches_at(hay, needle, i)
}

fn match_at(hay: &Vec<u8>, needle: &Vec<u8>, i: usize) -> (r: bool)
    requires
        i + needle@.len() <= hay@.len(),
    ensures
        r == matches_at(hay@, needle@, i as int),
{
    let hay_len = hay.len();
    let mut j: usize = 0;
    while j < needle.len()
        invariant
            hay_len == hay@.len(),
            i + needle@.len() <= hay@.len(),
            j <= needle@.len(),
            forall|t: int| 0 <= t < j ==> hay@[i + t] == #[trigger] needle@[t],
        decreases needle@.len() - j,
    {
        if hay[i + j] != needle[j] {
            return false;
        }
        j = j + 1;
    }
    true
}

/// Substring search: does `needle` occur anywhere in `hay`?
pub fn contains_bytes(hay: &Vec<u8>, needle: &Vec<u8>) -> (r: bool)
    ensures
        r == is_substring(hay@, needle@),
{
    if needle.len() > hay.len() {
        proof {
            assert(forall|i: int| !matches_at(hay@, needle@, i));
        }
        return false;
    }
    let last = hay.len() - needle.len();
    let mut i: usize = 0;
    loop
        invariant
            needle@.len() <= hay@.len(),
            last == hay@.len() - needle@.len(),
            i <= last,
            forall|k: int| 0 <= k < i ==> !matches_at(hay@, needle@, k),
        decreases last - i,
    {
        if match_at(hay, needle, i) {
            return true;
        }
        if i == last {
            proof {
                assert(forall|k: int| matches_at(hay@, needle@, k) ==> 0 <= k <= last);
            }
            return false;
        }
        i = i + 1;
    }
}

/// Every byte of `s` is an ASCII digit.
pub open spec fn all_digits(s: Seq<u8>) -> bool {
    forall|i: int| 0 <= i < s.len() ==> is_ascii_digit(#[trigger] s[i])
}

/// The value of `s` read as a decimal numeral, most significant digit first.
pub open spec fn dec_value(s: Seq<u8>) -> int
    decreases s.len(),
{
    if s.len() == 0 {
        0
    } else {
        dec_value(s.drop_last()) * 10 + (s.last() - 48)
    }
}

pub proof fn lemma_dec_value_nonneg(s: Seq<u8>)
    requires
        all_digits(s),
    ensures
        dec_value(s) >= 0,
    decreases s.len(),
{
    if s.len() > 0 {
        assert(all_digits(s.drop_last()));
        lemma_dec_value_nonneg(s.drop_last());
    }
}

/// Appending one digit multiplies the value by ten and adds the digit.
pub proof fn lemma_dec_value_step(s: Seq<u8>, k: int)
    requires
        0 <= k < s.len(),
    ensures
        dec_value(s.take(k + 1)) == dec_value(s.take(k)) * 10 + (s[k] - 48),
{
    assert(s.take(k + 1).drop_last() =~= s.take(k));
    assert(s.take(k + 1).last() == s[k]);
}

/// The value of a digit string is at least the value of any prefix of it.
pub proof fn lemma_dec_value_prefix(s: Seq<u8>, k: int)
    requires
        all_digits(s),
        0 <= k <= s.len(),
    ensures
        dec_value(s) >= dec_value(s.take(k)),
    decreases s.len(),
{
    if k == s.len() {
        assert(s.take(k) =~= s);
    } else {
        let t = s.drop_last();
        assert(all_digits(t));
        lemma_dec_value_prefix(t, k);
        assert(t.take(k) =~= s.take(k));
        lemma_dec_value_nonneg(t);
        assert(is_ascii_digit(s.last()));
    }
}

} // verus!
