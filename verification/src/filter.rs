//! Include/exclude/minimum-threshold policy over process names and
//! unique-set sizes.
//!
//! Exclusion is checked first and wins over inclusion; an empty include list
//! accepts every name; the unique-set threshold is an inclusive lower bound.

use vstd::prelude::*;

use crate::bytes::{contains_bytes, is_substring};

verus! {

/// Name and size policy for dropping readings before ranking.
pub struct FilterPolicy {
    /// Allow-list of name substrings; empty means every name is allowed.
    pub include_patterns: Vec<Vec<u8>>,
    /// Deny-list of name substrings; takes precedence over the allow-list.
    pub exclude_patterns: Vec<Vec<u8>>,
    /// Inclusive lower bound on a reading's unique-set size in bytes.
    pub min_unique_bytes: u64,
}

/// `name` contains at least one of the patterns as a substring.
pub open spec fn matches_any_spec(name: Seq<u8>, pats: Seq<Vec<u8>>) -> bool {
    exists|i: int| 0 <= i < pats.len() && is_substring(name, #[trigger] pats[i]@)
}

/// The name-only part of the policy: not excluded, and included when an
/// allow-list is present.
pub open spec fn name_accepted(name: Seq<u8>, p: FilterPolicy) -> bool {
    &&& !matches_any_spec(name, p.exclude_patterns@)
    &&& (p.include_patterns@.len() == 0 || matches_any_spec(name, p.include_patterns@))
}

/// The whole policy: the name passes and the unique-set size meets the
/// threshold.
pub open spec fn accepts(p: FilterPolicy, name: Seq<u8>, uss: u64) -> bool {
    name_accepted(name, p) && uss >= p.min_unique_bytes
}

/// Does `name` contain any of the patterns?
pub fn matches_any(name: &Vec<u8>, pats: &Vec<Vec<u8>>) -> (r: bool)
    ensures
        r == matches_any_spec(name@, pats@),
{
    let mut i: usize = 0;
    while i < pats.len()
        invariant
            i <= pats@.len(),
            forall|k: int| 0 <= k < i ==> !is_substring(name@, #[trigger] pats@[k]@),
        decreases pats@.len() - i,
    {
        if contains_bytes(name, &pats[i]) {
            return true;
        }
        i = i + 1;
    }
    false
}

/// The name-only policy decision: exclusion first, then the allow-list.
pub fn should_include_process(name: &Vec<u8>, policy: &FilterPolicy) -> (r: bool)
    ensures
        r == name_accepted(name@, *policy),
{
    if matches_any(name, &policy.exclude_patterns) {
        return false;
    }
    if policy.include_patterns.len() > 0 {
        return matches_any(name, &policy.include_patterns);
    }
    true
}

/// The whole policy decision for one reading's name and unique-set size.
pub fn reading_accepted(policy: &FilterPolicy, name: &Vec<u8>, uss: u64) -> (r: bool)
    ensures
        r == accepts(*policy, name@, uss),
{
    should_include_process(name, policy) && uss >= policy.min_unique_bytes
}

/// The threshold is an inclusive bound: a zero threshold accepts every
/// reading that passes the name policy, and a reading whose unique-set size
/// exactly equals the threshold is accepted too.
pub proof fn lemma_threshold_boundary(p: FilterPolicy, name: Seq<u8>, uss: u64)
    ensures
        p.min_unique_bytes == 0 ==> (accepts(p, name, uss) <==> name_accepted(name, p)),
        uss == p.min_unique_bytes ==> (accepts(p, name, uss) <==> name_accepted(name, p)),
{
}

} // verus!
