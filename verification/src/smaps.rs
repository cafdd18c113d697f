//! Memory-map accounting parser: sums the `Rss:`, `Pss:`, `Private_Clean:`
//! and `Private_Dirty:` kilobyte fields of a line-oriented accounting text
//! and converts them to bytes.
//!
//! A missing or unparsable numeric field contributes zero; totals saturate at
//! `u64::MAX` instead of wrapping.

use vstd::prelude::*;

use crate::bytes::{
    all_digits, dec_value, is_ascii_ws, is_digit_byte, is_ws_byte, lemma_dec_value_nonneg,
    lemma_dec_value_prefix, lemma_dec_value_step, lemma_trim_start_at, lemma_ws_token_at,
    subrange_vec, trim_start, ws_token,
};

verus! {

/// The first whitespace-delimited token of `s`, after leading whitespace.
pub open spec fn token_of(s: Seq<u8>) -> Seq<u8> {
    ws_token(trim_start(s))
}

/// The numeric value of a kilobyte field: the first token of `s` read as a
/// decimal number, or nothing if that token is empty, non-numeric, or does
/// not fit in a `u64`.
pub open spec fn parsed_kb(s: Seq<u8>) -> Option<int> {
    let t = token_of(s);
    if t.len() > 0 && all_digits(t) && dec_value(t) <= u64::MAX {
        Some(dec_value(t))
    } else {
        None
    }
}

/// Tolerant reading of a kilobyte field: an unparsable field counts as zero.
pub open spec fn kb_or_zero(s: Seq<u8>) -> int {
    match parsed_kb(s) {
        Some(n) => n,
        None => 0,
    }
}

/// Parses the first whitespace-delimited token of `v` as a decimal `u64`.
pub fn parse_kb_value(v: &Vec<u8>) -> (r: Option<u64>)
    ensures
        r is Some <==> parsed_kb(v@) is Some,
        r matches Some(n) ==> parsed_kb(v@) == Some(n as int),
{
    let n = v.len();
    let mut a: usize = 0;
    while a < n && is_ws_byte(v[a])
        invariant
            n == v@.len(),
            a <= n,
            forall|k: int| 0 <= k < a ==> is_ascii_ws(#[trigger] v@[k]),
        decreases n - a,
    {
        a = a + 1;
    }
    let mut e: usize = a;
    while e < n && !is_ws_byte(v[e])
        invariant
            n == v@.len(),
            a <= e <= n,
            forall|k: int| a <= k < e ==> !is_ascii_ws(#[trigger] v@[k]),
        decreases n - e,
    {
        e = e + 1;
    }
    proof {
        lemma_trim_start_at(v@, a as int);
        let sk = v@.skip(a as int);
        assert(forall|k: int| 0 <= k < e - a ==> !is_ascii_ws(#[trigger] sk[k]));
        lemma_ws_token_at(sk, e - a);
        assert(sk.take(e - a) =~= v@.subrange(a as int, e as int));
    }
    let ghost t = token_of(v@);
    if a == e {
        return None;
    }
    let mut val: u64 = 0;
    let mut k: usize = a;
    while k < e
        invariant
            a <= k <= e <= v@.len(),
            a < e,
            t == token_of(v@),
            t == v@.subrange(a as int, e as int),
            all_digits(t.take(k - a)),
            val == dec_value(t.take(k - a)),
        decreases e - k,
    {
        let b = v[k];
        proof {
            assert(t[k - a] == v@[k as int]);
        }
        if !is_digit_byte(b) {
            proof {
                assert(!crate::bytes::is_ascii_digit(t[k - a]));
                assert(!all_digits(t));
            }
            return None;
        }
        let d: u64 = (b - 48) as u64;
        if val > 1844674407370955161u64 || (val == 1844674407370955161u64 && d > 5) {
            proof {
                lemma_dec_value_step(t, k - a);
                assert(dec_value(t.take(k - a + 1)) > u64::MAX);
                if all_digits(t) {
                    lemma_dec_value_prefix(t, k - a + 1);
                }
            }
            return None;
        }
        proof {
            lemma_dec_value_step(t, k - a);
            assert(forall|i: int| 0 <= i < k - a + 1 ==> crate::bytes::is_ascii_digit(
                #[trigger] t.take(k - a + 1)[i],
            ));
        }
        val = val * 10 + d;
        k = k + 1;
    }
    proof {
        assert(t.take(e - a) =~= t);
    }
    Some(val)
}

/// `s` begins with `p`.
pub open spec fn starts_with(s: Seq<u8>, p: Seq<u8>) -> bool {
    p.len() <= s.len() && forall|j: int| 0 <= j < p.len() ==> s[j] == #[trigger] p[j]
}

pub fn starts_with_bytes(s: &Vec<u8>, p: &Vec<u8>) -> (r: bool)
    ensures
        r == starts_with(s@, p@),
{
    if p.len() > s.len() {
        return false;
    }
    let mut j: usize = 0;
    while j < p.len()
        invariant
            p@.len() <= s@.len(),
            j <= p@.len(),
            forall|k: int| 0 <= k < j ==> s@[k] == #[trigger] p@[k],
        decreases p@.len() - j,
    {
        if s[j] != p[j] {
            return false;
        }
        j = j + 1;
    }
    true
}

/// The label prefix of resident-set lines, `"Rss:"`.
pub open spec fn rss_prefix() -> Seq<u8> {
    seq![82u8, 115u8, 115u8, 58u8]
}

/// The label prefix of proportional-set lines, `"Pss:"`.
pub open spec fn pss_prefix() -> Seq<u8> {
    seq![80u8, 115u8, 115u8, 58u8]
}

/// The label prefix of private-clean lines, `"Private_Clean:"`.
pub open spec fn private_clean_prefix() -> Seq<u8> {
    seq![80u8, 114u8, 105u8, 118u8, 97u8, 116u8, 101u8, 95u8, 67u8, 108u8, 101u8, 97u8, 110u8, 58u8]
}

/// The label prefix of private-dirty lines, `"Private_Dirty:"`.
pub open spec fn private_dirty_prefix() -> Seq<u8> {
    seq![80u8, 114u8, 105u8, 118u8, 97u8, 116u8, 101u8, 95u8, 68u8, 105u8, 114u8, 116u8, 121u8, 58u8]
}

/// The kilobyte contribution of one line towards the total for `prefix`:
/// zero unless the line carries that label.
pub open spec fn line_kb(line: Seq<u8>, prefix: Seq<u8>) -> int {
    if starts_with(line, prefix) {
        kb_or_zero(line.skip(prefix.len() as int))
    } else {
        0
    }
}

/// The summed kilobyte total of all lines carrying `prefix`.
pub open spec fn total_kb(lines: Seq<Vec<u8>>, prefix: Seq<u8>) -> int
    decreases lines.len(),
{
    if lines.len() == 0 {
        0
    } else {
        total_kb(lines.drop_last(), prefix) + line_kb(lines.last()@, prefix)
    }
}

pub proof fn lemma_line_kb_nonneg(line: Seq<u8>, prefix: Seq<u8>)
    ensures
        line_kb(line, prefix) >= 0,
{
    let rest = line.skip(prefix.len() as int);
    if starts_with(line, prefix) && parsed_kb(rest) is Some {
        lemma_dec_value_nonneg(token_of(rest));
    }
}

pub proof fn lemma_total_kb_nonneg(lines: Seq<Vec<u8>>, prefix: Seq<u8>)
    ensures
        total_kb(lines, prefix) >= 0,
    decreases lines.len(),
{
    if lines.len() > 0 {
        lemma_total_kb_nonneg(lines.drop_last(), prefix);
        lemma_line_kb_nonneg(lines.last()@, prefix);
    }
}

/// `x` clamped to the `u64` range from above.
pub open spec fn sat_u64(x: int) -> int {
    if x > u64::MAX {
        u64::MAX as int
    } else {
        x
    }
}

fn sat_add_u64(a: u64, b: u64) -> (r: u64)
    ensures
        r == sat_u64(a + b),
{
    if a > u64::MAX - b {
        u64::MAX
    } else {
        a + b
    }
}

fn sat_kb_to_bytes(a: u64) -> (r: u64)
    ensures
        r == sat_u64(a * 1024),
{
    if a > u64::MAX / 1024 {
        u64::MAX
    } else {
        a * 1024
    }
}

fn line_kb_exec(line: &Vec<u8>, prefix: &Vec<u8>) -> (r: u64)
    ensures
        r == line_kb(line@, prefix@),
{
    if starts_with_bytes(line, prefix) {
        let rest = subrange_vec(line, prefix.len(), line.len());
        proof {
            assert(rest@ =~= line@.skip(prefix@.len() as int));
        }
        match parse_kb_value(&rest) {
            Some(n) => n,
            None => 0,
        }
    } else {
        proof {
            lemma_line_kb_nonneg(line@, prefix@);
        }
        0
    }
}

/// Streams the accounting lines once, accumulating the resident,
/// proportional, private-clean and private-dirty kilobyte totals, and
/// returns `(rss, pss, uss)` in bytes, where the unique-set size `uss` is
/// the sum of the two private totals.
pub fn parse_smaps(lines: &Vec<Vec<u8>>) -> (r: (u64, u64, u64))
    ensures
        r.0 == sat_u64(total_kb(lines@, rss_prefix()) * 1024),
        r.1 == sat_u64(total_kb(lines@, pss_prefix()) * 1024),
        r.2 == sat_u64(
            (total_kb(lines@, private_clean_prefix()) + total_kb(lines@, private_dirty_prefix()))
                * 1024,
        ),
{
    let mut rss_p: Vec<u8> = Vec::new();
    rss_p.push(82);
    rss_p.push(115);
    rss_p.push(115);
    rss_p.push(58);
    proof {
        assert(rss_p@ =~= rss_prefix());
    }
    let mut pss_p: Vec<u8> = Vec::new();
    pss_p.push(80);
    pss_p.push(115);
    pss_p.push(115);
    pss_p.push(58);
    proof {
        assert(pss_p@ =~= pss_prefix());
    }
    let mut pc_p: Vec<u8> = Vec::new();
    pc_p.push(80);
    pc_p.push(114);
    pc_p.push(105);
    pc_p.push(118);
    pc_p.push(97);
    pc_p.push(116);
    pc_p.push(101);
    pc_p.push(95);
    pc_p.push(67);
    pc_p.push(108);
    pc_p.push(101);
    pc_p.push(97);
    pc_p.push(110);
    pc_p.push(58);
    proof {
        assert(pc_p@ =~= private_clean_prefix());
    }
    let mut pd_p: Vec<u8> = Vec::new();
    pd_p.push(80);
    pd_p.push(114);
    pd_p.push(105);
    pd_p.push(118);
    pd_p.push(97);
    pd_p.push(116);
    pd_p.push(101);
    pd_p.push(95);
    pd_p.push(68);
    pd_p.push(105);
    pd_p.push(114);
    pd_p.push(116);
    pd_p.push(121);
    pd_p.push(58);
    proof {
        assert(pd_p@ =~= private_dirty_prefix());
    }

    let mut rss: u64 = 0;
    let mut pss: u64 = 0;
    let mut pc: u64 = 0;
    let mut pd: u64 = 0;
    let mut i: usize = 0;
    while i < lines.len()
        invariant
            i <= lines@.len(),
            rss_p@ == rss_prefix(),
            pss_p@ == pss_prefix(),
            pc_p@ == private_clean_prefix(),
            pd_p@ == private_dirty_prefix(),
            rss == sat_u64(total_kb(lines@.take(i as int), rss_prefix())),
            pss == sat_u64(total_kb(lines@.take(i as int), pss_prefix())),
            pc == sat_u64(total_kb(lines@.take(i as int), private_clean_prefix())),
            pd == sat_u64(total_kb(lines@.take(i as int), private_dirty_prefix())),
        decreases lines@.len() - i,
    {
        let line = &lines[i];
        proof {
            let pre = lines@.take(i as int);
            let post = lines@.take(i + 1);
            assert(post.drop_last() =~= pre);
            assert(post.last() == lines@[i as int]);
            lemma_total_kb_nonneg(pre, rss_prefix());
            lemma_total_kb_nonneg(pre, pss_prefix());
            lemma_total_kb_nonneg(pre, private_clean_prefix());
            lemma_total_kb_nonneg(pre, private_dirty_prefix());
            lemma_line_kb_nonneg(lines@[i as int]@, rss_prefix());
            lemma_line_kb_nonneg(lines@[i as int]@, pss_prefix());
            lemma_line_kb_nonneg(lines@[i as int]@, private_clean_prefix());
            lemma_line_kb_nonneg(lines@[i as int]@, private_dirty_prefix());
        }
        rss = sat_add_u64(rss, line_kb_exec(line, &rss_p));
        pss = sat_add_u64(pss, line_kb_exec(line, &pss_p));
        pc = sat_add_u64(pc, line_kb_exec(line, &pc_p));
        pd = sat_add_u64(pd, line_kb_exec(line, &pd_p));
        i = i + 1;
    }
    proof {
        assert(lines@.take(lines@.len() as int) =~= lines@);
        lemma_total_kb_nonneg(lines@, rss_prefix());
        lemma_total_kb_nonneg(lines@, pss_prefix());
        lemma_total_kb_nonneg(lines@, private_clean_prefix());
        lemma_total_kb_nonneg(lines@, private_dirty_prefix());
    }
    let uss = sat_add_u64(pc, pd);
    (sat_kb_to_bytes(rss), sat_kb_to_bytes(pss), sat_kb_to_bytes(uss))
}

} // verus!
