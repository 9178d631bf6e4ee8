//! The search for a capacity by trial: chains of more and more steps, each
//! tried at the capacity reached so far, which is raised where a chain does
//! not fit.

use crate::chip::MAX_K;
use crate::fib_bi::{chain_failures, chain_rows, lemma_run_failures, run, RunPlan};
use crate::utils::last_term;
use vstd::arithmetic::power2::pow2;
use vstd::prelude::*;

verus! {

/// The capacity exponent that a search starts with.
pub const START_K: u32 = 5;

/// A search: the step count and the capacity exponent to try next, the step
/// count to stop before, and the stride between step counts.
#[derive(Clone, Copy, Debug, PartialEq, Eq, Structural)]
pub struct KSearch {
    pub max_n: usize,
    pub stride: usize,
    pub n: usize,
    pub k: u32,
}

/// The step count after `n`, which does not pass `max_n`.
pub open spec fn next_n(n: nat, stride: nat, max_n: nat) -> nat {
    if n + stride >= max_n {
        max_n
    } else {
        n + stride
    }
}

/// Whether the mock check of the chain of `n` steps from 0 and 1 succeeds in
/// 2^k rows: the chain has room, and none of its additions loses a carry.
pub open spec fn chain_fits(n: nat, k: nat) -> bool {
    let adds = (last_term(n) - 1) as nat;
    chain_rows(8, adds) <= pow2(k) && chain_failures(0, 1, adds, 8, 64, 0).len() == 0
}

/// The successful trials of a search from `n` at `k` on, as pairs of a step
/// count and the capacity exponent at which its chain was found satisfied. A
/// chain that fails is tried again at the next capacity; a chain that
/// succeeds is followed by the next step count at the same capacity. The
/// search ends when the step count reaches `max_n`, or when no capacity is
/// left to try.
pub open spec fn search_trace(max_n: nat, stride: nat, n: nat, k: nat) -> Seq<(usize, u32)>
    decreases max_n - n, MAX_K + 1 - k,
{
    if n >= max_n || k > MAX_K || stride == 0 {
        Seq::empty()
    } else if chain_fits(n, k) {
        seq![(n as usize, k as u32)] + search_trace(max_n, stride, next_n(n, stride, max_n), k)
    } else {
        search_trace(max_n, stride, n, k + 1)
    }
}

impl KSearch {
    /// A search that starts with a chain of `stride` steps at [`START_K`].
    pub fn new(max_n: usize, stride: usize) -> (search: KSearch)
        ensures
            search == (KSearch { max_n, stride, n: stride, k: START_K }),
    {
        KSearch { max_n, stride, n: stride, k: START_K }
    }

    /// The trial to make next: the step count and the capacity exponent; none
    /// when the search is over. A search with a stride of zero is over at
    /// once.
    pub fn pending(&self) -> (trial: Option<(usize, u32)>)
        ensures
            trial is Some <==> self.n < self.max_n && self.k <= MAX_K && self.stride >= 1,
            trial matches Some(t) ==> t == (self.n, self.k),
    {
        if self.n < self.max_n && self.k <= MAX_K && self.stride >= 1 {
            Some((self.n, self.k))
        } else {
            None
        }
    }

    /// Takes in how the pending trial went. After a success the step count
    /// advances and the capacity stays; after a failure the capacity is
    /// raised by one and the step count stays. The capacity is never lowered.
    pub fn record(&mut self, success: bool)
        requires
            old(self).n < old(self).max_n,
            old(self).k <= MAX_K,
        ensures
            final(self).max_n == old(self).max_n,
            final(self).stride == old(self).stride,
            final(self).k >= old(self).k,
            final(self).n >= old(self).n,
            success ==> final(self).k == old(self).k && final(self).n == next_n(
                old(self).n as nat,
                old(self).stride as nat,
                old(self).max_n as nat,
            ),
            !success ==> final(self).k == old(self).k + 1 && final(self).n == old(self).n,
    {
        if success {
            if self.stride >= self.max_n - self.n {
                self.n = self.max_n;
            } else {
                self.n = self.n + self.stride;
            }
        } else {
            self.k = self.k + 1;
        }
    }
}

/// Searches the capacity for chains of `stride`, `2 * stride`, ... steps,
/// below `max_n`, each checked by the mock backend, and hands back the
/// successful trials in the order in which they were made.
pub fn search_k(max_n: usize, stride: usize) -> (trace: Vec<(usize, u32)>)
    ensures
        trace@ == search_trace(max_n as nat, stride as nat, stride as nat, START_K as nat),
{
    let mut search: KSearch = KSearch::new(max_n, stride);
    let mut trace: Vec<(usize, u32)> = Vec::new();
    let ghost whole = search_trace(max_n as nat, stride as nat, stride as nat, START_K as nat);
    proof {
        assert(trace@ + whole =~= whole);
    }
    loop
        invariant
            search.max_n == max_n,
            search.stride == stride,
            whole == trace@ + search_trace(
                max_n as nat,
                stride as nat,
                search.n as nat,
                search.k as nat,
            ),
        ensures
            trace@ == whole,
        decreases max_n - search.n, MAX_K + 1 - search.k,
    {
        let (n, k): (usize, u32) = match search.pending() {
            Some(trial) => trial,
            None => {
                proof {
                    assert(trace@ + Seq::<(usize, u32)>::empty() =~= trace@);
                }
                break ;
            },
        };
        let plan: RunPlan = run(false, true, n);
        proof {
            lemma_run_failures(plan.circuit);
        }
        let success: bool = match plan.circuit.mock_check(k) {
            Ok(report) => report.len() == 0,
            Err(_) => false,
        };
        let ghost rest = search_trace(
            max_n as nat,
            stride as nat,
            next_n(n as nat, stride as nat, max_n as nat),
            k as nat,
        );
        if success {
            proof {
                assert(trace@ + (seq![(n, k)] + rest) =~= trace@.push((n, k)) + rest);
            }
            trace.push((n, k));
        }
        search.record(success);
    }
    trace
}

/// Capacity monotonicity: along a search the step counts go up and the
/// capacity never goes down, and every trial listed is one of a chain that
/// fits its capacity, which is no less than the one the search began with.
pub proof fn lemma_search_monotone(max_n: nat, stride: nat, n: nat, k: nat)
    requires
        max_n <= usize::MAX,
        k <= MAX_K + 1,
    ensures
        ({
            let trace = search_trace(max_n, stride, n, k);
            &&& forall|i: int|
                0 <= i < trace.len() ==> n <= (#[trigger] trace[i]).0 < max_n && k <= trace[i].1
                    <= MAX_K && chain_fits(trace[i].0 as nat, trace[i].1 as nat)
            &&& forall|i: int, j: int|
                0 <= i < j < trace.len() ==> (#[trigger] trace[i]).0 < (#[trigger] trace[j]).0
                    && trace[i].1 <= trace[j].1
        }),
    decreases max_n - n, MAX_K + 1 - k,
{
    let trace = search_trace(max_n, stride, n, k);
    if n >= max_n || k > MAX_K || stride == 0 {
        assert(trace.len() == 0);
    } else if chain_fits(n, k) {
        let after = next_n(n, stride, max_n);
        let rest = search_trace(max_n, stride, after, k);
        lemma_search_monotone(max_n, stride, after, k);
        assert(trace =~= seq![(n as usize, k as u32)] + rest);
        assert forall|i: int| 0 <= i < trace.len() implies n <= (#[trigger] trace[i]).0 < max_n
            && k <= trace[i].1 <= MAX_K && chain_fits(trace[i].0 as nat, trace[i].1 as nat) by {
            if i > 0 {
                assert(trace[i] == rest[i - 1]);
            }
        }
        assert forall|i: int, j: int| 0 <= i < j < trace.len() implies (#[trigger] trace[i]).0 < (
        #[trigger] trace[j]).0 && trace[i].1 <= trace[j].1 by {
            assert(trace[j] == rest[j - 1]);
            if i > 0 {
                assert(trace[i] == rest[i - 1]);
            }
        }
    } else {
        lemma_search_monotone(max_n, stride, n, k + 1);
        assert(trace == search_trace(max_n, stride, n, k + 1));
    }
}

} // verus!
