//! Planning a run: which reduction function each table gets, and the
//! bookkeeping of the tables reported finished.
use vstd::prelude::*;

verus! {

/// Number of reduction functions a table can be given: `1..=255`.
pub const NUM_REDUCTIONS: usize = 255;

/// No value occurs twice in `s`.
pub open spec fn distinct(s: Seq<u8>) -> bool {
    forall|i: int, j: int| 0 <= i < j < s.len() ==> s[i] != s[j]
}

/// Relies on `rand::seq::index::sample`: `amount` distinct indices drawn
/// from `0..length`, which panics only when `amount > length`.
#[verifier::external_body]
fn sample_indices(length: usize, amount: usize) -> (v: Vec<usize>)
    requires
        amount <= length,
    ensures
        v@.len() == amount,
        forall|i: int| 0 <= i < v@.len() ==> v@[i] < length,
        forall|i: int, j: int| 0 <= i < j < v@.len() ==> v@[i] != v@[j],
{
    rand::seq::index::sample(&mut rand::rng(), length, amount).into_vec()
}

/// The reduction functions named by indices drawn from `0..255`: index `k`
/// names function `k + 1`.
pub fn reductions_from_sample(picks: &[usize]) -> (rs: Vec<u8>)
    requires
        forall|i: int| 0 <= i < picks@.len() ==> picks@[i] < NUM_REDUCTIONS,
    ensures
        rs@.len() == picks@.len(),
        forall|i: int| 0 <= i < picks@.len() ==> rs@[i] == picks@[i] + 1,
{
    let mut rs: Vec<u8> = Vec::new();
    let mut i: usize = 0;
    while i < picks.len()
        invariant
            i <= picks@.len(),
            forall|k: int| 0 <= k < picks@.len() ==> picks@[k] < NUM_REDUCTIONS,
            rs@.len() == i,
            forall|k: int| 0 <= k < i ==> rs@[k] == picks@[k] + 1,
        decreases picks@.len() - i,
    {
        rs.push((picks[i] + 1) as u8);
        i = i + 1;
    }
    rs
}

/// Draws the reduction functions of `ntables` tables: each in `1..=255`, no
/// two the same, so that no table overwrites another's artifact.
pub fn plan_reductions(ntables: u8) -> (rs: Vec<u8>)
    ensures
        rs@.len() == ntables,
        forall|i: int| 0 <= i < rs@.len() ==> 1 <= #[trigger] rs@[i],
        distinct(rs@),
{
    let picks = sample_indices(NUM_REDUCTIONS, ntables as usize);
    let rs = reductions_from_sample(picks.as_slice());
    assert forall|i: int, j: int| 0 <= i < j < rs@.len() implies rs@[i] != rs@[j] by {
        assert(picks@[i] != picks@[j]);
    }
    rs
}

/// The tables of a run that are still being built and those reported
/// finished, in the order of their reports.
pub struct Progress {
    pending: Vec<u8>,
    finished: Vec<u8>,
    planned: Ghost<Seq<u8>>,
}

impl Progress {
    /// The reduction functions of the tables the run was planned with.
    pub closed spec fn planned(&self) -> Seq<u8> {
        self.planned@
    }

    /// The reduction functions of the finished tables, in report order.
    pub closed spec fn finished(&self) -> Seq<u8> {
        self.finished@
    }

    /// The reduction functions of the tables not yet reported.
    pub closed spec fn pending(&self) -> Seq<u8> {
        self.pending@
    }

    /// Every planned table is either pending or finished, never both, and
    /// none is reported twice.
    pub closed spec fn wf(&self) -> bool {
        &&& distinct(self.planned@)
        &&& distinct(self.pending@)
        &&& distinct(self.finished@)
        &&& self.pending@.len() + self.finished@.len() == self.planned@.len()
        &&& forall|x: u8| #[trigger]
            self.planned@.contains(x) <==> (self.pending@.contains(x) || self.finished@.contains(x))
        &&& forall|x: u8| #[trigger] self.pending@.contains(x) ==> !self.finished@.contains(x)
    }

    /// A run in which the tables with reduction functions `planned` are all
    /// still being built.
    pub fn new(planned: Vec<u8>) -> (p: Progress)
        requires
            distinct(planned@),
        ensures
            p.wf(),
            p.planned() == planned@,
            p.pending() == planned@,
            p.finished() == Seq::<u8>::empty(),
    {
        let ghost g = planned@;
        let p = Progress { pending: planned, finished: Vec::new(), planned: Ghost(g) };
        assert(p.finished@ =~= Seq::<u8>::empty());
        p
    }

    /// Takes the report that the table with reduction function `r` is
    /// finished. It is accepted, and `true` returned, exactly when that table
    /// is pending; a report of an unplanned or already finished table changes
    /// nothing.
    pub fn record(&mut self, r: u8) -> (accepted: bool)
        requires
            old(self).wf(),
        ensures
            final(self).wf(),
            final(self).planned() == old(self).planned(),
            accepted == old(self).pending().contains(r),
            accepted ==> final(self).finished() == old(self).finished().push(r),
            accepted ==> final(self).pending() == old(self).pending().remove(
                old(self).pending().index_of(r),
            ),
            !accepted ==> final(self).finished() == old(self).finished() && final(self).pending()
                == old(self).pending(),
    {
        let mut i: usize = 0;
        while i < self.pending.len()
            invariant
                self.pending@ == old(self).pending@,
                self.finished@ == old(self).finished@,
                self.planned@ == old(self).planned@,
                old(self).wf(),
                i <= self.pending@.len(),
                forall|k: int| 0 <= k < i ==> self.pending@[k] != r,
            decreases self.pending@.len() - i,
        {
            if self.pending[i] == r {
                let ghost old_pending = self.pending@;
                let ghost old_finished = self.finished@;
                proof {
                    assert(old_pending.index_of(r) == i as int) by {
                        old_pending.index_of_first_ensures(r);
                        assert(old_pending[i as int] == r);
                    }
                }
                self.pending.remove(i);
                self.finished.push(r);
                proof {
                    let np = self.pending@;
                    let nf = self.finished@;
                    assert(np =~= old_pending.remove(i as int));
                    assert forall|x: u8| #[trigger] np.contains(x) <==> (old_pending.contains(x) && x != r) by {
                        if np.contains(x) {
                            let k = np.index_of(x);
                            np.index_of_first_ensures(x);
                            if k < i {
                                assert(old_pending[k] == x);
                            } else {
                                assert(old_pending[k + 1] == x);
                            }
                        }
                        if old_pending.contains(x) && x != r {
                            let k = old_pending.index_of(x);
                            old_pending.index_of_first_ensures(x);
                            if k < i {
                                assert(np[k] == x);
                            } else {
                                assert(np[k - 1] == x);
                            }
                        }
                    }
                    assert forall|x: u8| #[trigger] nf.contains(x) <==> (old_finished.contains(x) || x == r) by {
                        if nf.contains(x) {
                            let k = nf.index_of(x);
                            nf.index_of_first_ensures(x);
                            if k < old_finished.len() {
                                assert(old_finished[k] == x);
                            }
                        }
                        if old_finished.contains(x) {
                            let k = old_finished.index_of(x);
                            old_finished.index_of_first_ensures(x);
                            assert(nf[k] == x);
                        }
                        if x == r {
                            assert(nf[nf.len() - 1] == r);
                        }
                    }
                    assert(distinct(np)) by {
                        assert forall|a: int, b: int| 0 <= a < b < np.len() implies np[a] != np[b] by {
                            let a2 = if a < i { a } else { a + 1 };
                            let b2 = if b < i { b } else { b + 1 };
                            assert(np[a] == old_pending[a2]);
                            assert(np[b] == old_pending[b2]);
                        }
                    }
                    assert(distinct(nf)) by {
                        assert forall|a: int, b: int| 0 <= a < b < nf.len() implies nf[a] != nf[b] by {
                            assert(nf[a] == old_finished[a]);
                            if b == nf.len() - 1 {
                                assert(old_pending.contains(r));
                                assert(!old_finished.contains(r));
                                assert(old_finished.contains(nf[a]));
                            } else {
                                assert(nf[b] == old_finished[b]);
                            }
                        }
                    }
                }
                return true;
            }
            i = i + 1;
        }
        false
    }

    /// Whether every planned table has been reported finished.
    pub fn is_complete(&self) -> (done: bool)
        requires
            self.wf(),
        ensures
            done == (self.pending().len() == 0),
    {
        self.pending.len() == 0
    }

    /// Number of tables reported finished.
    pub fn finished_count(&self) -> (n: usize)
        ensures
            n == self.finished().len(),
    {
        self.finished.len()
    }
}

/// Once a run is complete, the finished tables are exactly the planned
/// ones: one report for each table, none twice, whatever the order in which
/// the workers ended.
pub proof fn lemma_complete_run(p: Progress)
    requires
        p.wf(),
        p.pending().len() == 0,
    ensures
        p.finished().len() == p.planned().len(),
        distinct(p.finished()),
        p.finished().to_set() == p.planned().to_set(),
{
    assert forall|x: u8| p.finished().to_set().contains(x) <==> p.planned().to_set().contains(x) by {
        if p.pending@.contains(x) {
            let k = p.pending@.index_of(x);
            p.pending@.index_of_first_ensures(x);
        }
    }
    assert(p.finished().to_set() =~= p.planned().to_set());
}

} // verus!
