//! Process enumeration and name resolution.
//!
//! Enumeration keeps the directory entries whose names are purely numeric
//! (candidate process identifiers). A display name comes from the short
//! canonical name resource when it has any non-whitespace content, otherwise
//! from the first whitespace/NUL-delimited token of the command line; when
//! both are empty the process is silently skipped.

use vstd::prelude::*;

use crate::bytes::{
    all_digits, first_token, is_ascii_ws, is_delim_byte, is_digit_byte, is_token_delim,
    is_ws_byte, lemma_delim_token_at, lemma_skip_delims_at, lemma_trim_end_at,
    lemma_trim_start_at, subrange_vec, trimmed,
};

verus! {

/// Is `name` a candidate process identifier, i.e. purely numeric?
pub fn is_pid_name(name: &Vec<u8>) -> (r: bool)
    ensures
        r == all_digits(name@),
{
    let mut i: usize = 0;
    while i < name.len()
        invariant
            i <= name@.len(),
            forall|k: int| 0 <= k < i ==> crate::bytes::is_ascii_digit(#[trigger] name@[k]),
        decreases name@.len() - i,
    {
        if !is_digit_byte(name[i]) {
            return false;
        }
        i = i + 1;
    }
    true
}

/// The display name for a process: the trimmed short name when non-empty,
/// else the first token of the command line when non-empty, else nothing.
pub open spec fn resolved_name(comm: Seq<u8>, cmdline: Seq<u8>) -> Option<Seq<u8>> {
    if trimmed(comm).len() > 0 {
        Some(trimmed(comm))
    } else if first_token(cmdline).len() > 0 {
        Some(first_token(cmdline))
    } else {
        None
    }
}

/// Resolves a display name from the short-name resource contents (`comm`)
/// and the NUL-delimited command-line resource contents (`cmdline`).
pub fn resolve_name(comm: &Vec<u8>, cmdline: &Vec<u8>) -> (r: Option<Vec<u8>>)
    ensures
        r is Some <==> resolved_name(comm@, cmdline@) is Some,
        r matches Some(v) ==> resolved_name(comm@, cmdline@) == Some(v@),
{
    let n = comm.len();
    let mut a: usize = 0;
    while a < n && is_ws_byte(comm[a])
        invariant
            n == comm@.len(),
            a <= n,
            forall|k: int| 0 <= k < a ==> is_ascii_ws(#[trigger] comm@[k]),
        decreases n - a,
    {
        a = a + 1;
    }
    proof {
        lemma_trim_start_at(comm@, a as int);
    }
    if a < n {
        let mut b: usize = n;
        while b > a && is_ws_byte(comm[b - 1])
            invariant
                n == comm@.len(),
                a < n,
                a <= b <= n,
                forall|k: int| b <= k < n ==> is_ascii_ws(#[trigger] comm@[k]),
            decreases b,
        {
            b = b - 1;
        }
        proof {
            let sk = comm@.skip(a as int);
            assert(!is_ascii_ws(comm@[b - 1]));
            assert(forall|k: int| b - a <= k < sk.len() ==> is_ascii_ws(#[trigger] sk[k]));
            lemma_trim_end_at(sk, b - a);
            assert(sk.take(b - a) =~= comm@.subrange(a as int, b as int));
        }
        return Some(subrange_vec(comm, a, b));
    }
    proof {
        assert(comm@.skip(a as int).len() == 0);
        assert(trimmed(comm@).len() == 0);
    }
    let m = cmdline.len();
    let mut c: usize = 0;
    while c < m && is_delim_byte(cmdline[c])
        invariant
            m == cmdline@.len(),
            c <= m,
            forall|k: int| 0 <= k < c ==> is_token_delim(#[trigger] cmdline@[k]),
        decreases m - c,
    {
        c = c + 1;
    }
    let mut e: usize = c;
    while e < m && !is_delim_byte(cmdline[e])
        invariant
            m == cmdline@.len(),
            c <= e <= m,
            forall|k: int| c <= k < e ==> !is_token_delim(#[trigger] cmdline@[k]),
        decreases m - e,
    {
        e = e + 1;
    }
    proof {
        lemma_skip_delims_at(cmdline@, c as int);
        let sk = cmdline@.skip(c as int);
        assert(forall|k: int| 0 <= k < e - c ==> !is_token_delim(#[trigger] sk[k]));
        lemma_delim_token_at(sk, e - c);
        assert(sk.take(e - c) =~= cmdline@.subrange(c as int, e as int));
    }
    if c < e {
        Some(subrange_vec(cmdline, c, e))
    } else {
        None
    }
}

} // verus!
