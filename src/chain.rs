//! Chains: a start value carried through a fixed number of hash-then-reduce
//! steps, of which only the start and the end are kept.
use crate::reduction::{hash_reduce, step, DOMAIN};
use vstd::prelude::*;

verus! {

/// The value reached from `start` after `n` steps with reduction function `r`.
pub open spec fn chain_end(start: u64, r: u8, n: nat) -> u64
    decreases n,
{
    if n == 0 {
        start
    } else {
        step(chain_end(start, r, (n - 1) as nat), r)
    }
}

/// Builds one chain of `ncolumns` steps from `start` with reduction function
/// `r` and returns its end. With no column the end is the start itself.
pub fn build_chain(start: u64, r: u8, ncolumns: u64) -> (end: u64)
    ensures
        end == chain_end(start, r, ncolumns as nat),
        start < DOMAIN ==> end < DOMAIN,
{
    let mut x: u64 = start;
    let mut i: u64 = 0;
    while i < ncolumns
        invariant
            i <= ncolumns,
            x == chain_end(start, r, i as nat),
            start < DOMAIN ==> x < DOMAIN,
        decreases ncolumns - i,
    {
        x = hash_reduce(x, r);
        i = i + 1;
    }
    x
}

/// A chain is a function of its start, reduction function and length: two
/// chains built from the same three values end at the same value.
pub proof fn lemma_chain_deterministic(start: u64, r: u8, n: nat, end1: u64, end2: u64)
    requires
        end1 == chain_end(start, r, n),
        end2 == chain_end(start, r, n),
    ensures
        end1 == end2,
{
}

/// Every value a chain passes through, from its start to its end, lies in
/// the domain when the start does.
pub proof fn lemma_chain_in_domain(start: u64, r: u8, n: nat, k: nat)
    requires
        start < DOMAIN,
        k <= n,
    ensures
        chain_end(start, r, k) < DOMAIN,
    decreases k,
{
    if k > 0 {
        lemma_chain_in_domain(start, r, n, (k - 1) as nat);
        lemma_step_in_domain(chain_end(start, r, (k - 1) as nat), r);
    }
}

/// One step lands in the domain from any 64-bit value.
pub proof fn lemma_step_in_domain(x: u64, r: u8)
    ensures
        step(x, r) < DOMAIN,
{
}

/// A chain of no column ends where it starts.
pub proof fn lemma_degenerate_chain(start: u64, r: u8)
    ensures
        chain_end(start, r, 0) == start,
{
}

} // verus!
