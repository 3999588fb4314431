//! The division of the positions of a token among workers.

use vstd::prelude::*;
use vstd::arithmetic::div_mod::lemma_fundamental_div_mod;

verus! {

/// The share of one worker: the positions from `lo` up to, not including,
/// `hi`, and the neighbours found at them.
pub(crate) struct Shard {
    pub(crate) lo: usize,
    pub(crate) hi: usize,
    pub(crate) found: Vec<String>,
}

/// The shards divide the positions below `n` among them, in order and
/// without a gap, and none has found anything yet.
pub(crate) open spec fn is_plan(shards: Seq<Shard>, n: int) -> bool {
    &&& shards.len() >= 1
    &&& shards[0].lo == 0
    &&& shards.last().hi == n
    &&& forall|k: int| 0 <= k < shards.len() ==> (#[trigger] shards[k]).lo <= shards[k].hi <= n
    &&& forall|k: int| 0 <= k < shards.len() - 1 ==> (#[trigger] shards[k]).hi == shards[k + 1].lo
    &&& forall|k: int| 0 <= k < shards.len() ==> (#[trigger] shards[k]).found@.len() == 0
}

/// Divides the positions below `n` among `workers` shards: each gets the
/// whole part of `n / workers` positions, and the first ones one more while
/// the remainder lasts.
pub(crate) fn plan_shards(n: usize, workers: usize) -> (shards: Vec<Shard>)
    requires
        1 <= workers <= n,
    ensures
        shards.len() == workers,
        is_plan(shards@, n as int),
{
    let whole = n / workers;
    let extra = n % workers;
    proof {
        lemma_fundamental_div_mod(n as int, workers as int);
        assert(extra > 0 ==> whole < n) by (nonlinear_arith)
            requires
                n == workers * whole + extra,
                workers >= 1,
                whole >= 0,
        ;
    }
    let mut shards: Vec<Shard> = Vec::new();
    let mut lo: usize = 0;
    let mut k: usize = 0;
    while k < workers
        invariant
            k <= workers,
            lo <= n,
            extra > 0 ==> whole < n,
            shards.len() == k,
            k == 0 ==> lo == 0,
            k > 0 ==> shards@[0].lo == 0 && shards@[k - 1].hi == lo,
            k == workers ==> lo == n,
            forall|j: int| 0 <= j < k ==> (#[trigger] shards@[j]).lo <= shards@[j].hi <= n,
            forall|j: int| 0 <= j < k - 1 ==> (#[trigger] shards@[j]).hi == shards@[j + 1].lo,
            forall|j: int| 0 <= j < k ==> (#[trigger] shards@[j]).found@.len() == 0,
        decreases workers - k,
    {
        let size = if k < extra {
            whole + 1
        } else {
            whole
        };
        let hi = if k + 1 == workers || n - lo <= size {
            n
        } else {
            lo + size
        };
        shards.push(Shard { lo, hi, found: Vec::new() });
        lo = hi;
        k += 1;
    }
    shards
}

} // verus!
