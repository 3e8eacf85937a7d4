//! Tables: a batch of chains that share one reduction function and one
//! length, with consecutive starts.
use crate::chain::{build_chain, chain_end};
use crate::reduction::DOMAIN;
use rand::Rng;
use vstd::prelude::*;

verus! {

/// The two values kept of a chain.
#[derive(Clone, Copy, Debug, PartialEq, Eq, Structural)]
pub struct Chain {
    pub start: u64,
    pub end: u64,
}

/// A table: its reduction function, the number of steps of each chain, and
/// its chains in the order of their index.
#[derive(Debug)]
pub struct Table {
    pub reduction: u8,
    pub ncolumns: u64,
    pub chains: Vec<Chain>,
}

/// Start of chain `i` of a table whose base start is `base`.
pub open spec fn chain_start(base: u64, i: int) -> u64 {
    ((base + i) % (DOMAIN as int)) as u64
}

/// `chains` are the `n` chains of length `ncolumns` with reduction function
/// `r` that start at `base`, `base + 1`, ... (modulo the domain size).
pub open spec fn chains_from(chains: Seq<Chain>, base: u64, n: nat, r: u8, ncolumns: u64) -> bool {
    &&& chains.len() == n
    &&& forall|i: int|
        0 <= i < n ==> {
            &&& (#[trigger] chains[i]).start == chain_start(base, i)
            &&& chains[i].end == chain_end(chains[i].start, r, ncolumns as nat)
        }
}

impl Table {
    /// Number of chains of the table.
    pub fn nchains(&self) -> (n: usize)
        ensures
            n == self.chains@.len(),
    {
        self.chains.len()
    }
}

/// Builds the `nchains` chains of a table with reduction function `r`, each
/// of `ncolumns` steps, chain `i` starting at `(base + i) mod DOMAIN`.
pub fn build_table(base: u64, nchains: u64, ncolumns: u64, r: u8) -> (t: Table)
    ensures
        t.reduction == r,
        t.ncolumns == ncolumns,
        chains_from(t.chains@, base, nchains as nat, r, ncolumns),
{
    let mut chains: Vec<Chain> = Vec::new();
    let mut i: u64 = 0;
    while i < nchains
        invariant
            i <= nchains,
            chains_from(chains@, base, i as nat, r, ncolumns),
        decreases nchains - i,
    {
        let start = ((base as u128 + i as u128) % (DOMAIN as u128)) as u64;
        let end = build_chain(start, r, ncolumns);
        chains.push(Chain { start, end });
        i = i + 1;
    }
    Table { reduction: r, ncolumns, chains }
}

/// Relies on `rand::rng` and `Rng::random_range`: a value drawn uniformly
/// from `0..DOMAIN`, which the range excludes `DOMAIN` from.
#[verifier::external_body]
fn random_base() -> (x: u64)
    ensures
        x < DOMAIN,
{
    rand::rng().random_range(0..DOMAIN)
}

/// Draws a base start uniformly from the domain and builds the table of
/// `nchains` chains of `ncolumns` steps with reduction function `r` from it.
pub fn new_table(nchains: u64, ncolumns: u64, r: u8) -> (t: Table)
    ensures
        t.reduction == r,
        t.ncolumns == ncolumns,
        exists|base: u64| base < DOMAIN && chains_from(t.chains@, base, nchains as nat, r, ncolumns),
{
    let base = random_base();
    build_table(base, nchains, ncolumns, r)
}

/// Chain `i` of a table built from base `base` starts at
/// `(base + i) mod DOMAIN`, inside the domain, and its end lies in the domain
/// too.
pub proof fn lemma_chain_starts(chains: Seq<Chain>, base: u64, n: nat, r: u8, ncolumns: u64, i: int)
    requires
        chains_from(chains, base, n, r, ncolumns),
        0 <= i < n,
    ensures
        chains[i].start as int == (base as int + i) % (DOMAIN as int),
        chains[i].start < DOMAIN,
        chains[i].end < DOMAIN,
{
    crate::chain::lemma_chain_in_domain(chains[i].start, r, ncolumns as nat, ncolumns as nat);
}

/// Tables built from the same base start, chain count, chain length and
/// reduction function have the same chains: a run with a fixed base is
/// reproducible.
pub proof fn lemma_same_base_same_chains(
    c1: Seq<Chain>,
    c2: Seq<Chain>,
    base: u64,
    n: nat,
    r: u8,
    ncolumns: u64,
)
    requires
        chains_from(c1, base, n, r, ncolumns),
        chains_from(c2, base, n, r, ncolumns),
    ensures
        c1 == c2,
{
    assert forall|i: int| 0 <= i < n implies c1[i] == c2[i] by {
        assert(c1[i].start == c2[i].start);
    }
    assert(c1 =~= c2);
}

} // verus!
