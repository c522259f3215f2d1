//! The Pool Arbiter and the Recovery Arbiter.
//!
//! Both consume one full set of poll results (one [`HeadResult`] per node of
//! the polled pool, in arbitrary arrival order) and repartition the two node
//! pools: the Pool Arbiter demotes active nodes that report below the agreed
//! head, the Recovery Arbiter promotes quarantined nodes that have caught up.

use crate::error::HealthError;
use crate::head::HeadResult;
use crate::rpc::Rpc;
use crate::rpc::Status;
use vstd::prelude::*;

verus! {

/// The agreed head of one set of poll results: the maximum reported head,
/// or 0 when the set is empty.
pub open spec fn agreed_head_of(heads: Seq<HeadResult>) -> u64
    decreases heads.len(),
{
    if heads.len() == 0 {
        0u64
    } else {
        let rest = agreed_head_of(heads.drop_last());
        if heads.last().reported_head > rest {
            heads.last().reported_head
        } else {
            rest
        }
    }
}

/// Some poll result names slot `i` of the polled pool with a reported head
/// below `agreed`.
pub open spec fn laggard(heads: Seq<HeadResult>, i: int, agreed: u64) -> bool {
    exists|k: int|
        0 <= k < heads.len() && #[trigger] heads[k].rpc_list_index == i
            && heads[k].reported_head < agreed
}

/// Some poll result names slot `i` of the polled pool with a reported head
/// at or above `agreed`.
pub open spec fn escaper(heads: Seq<HeadResult>, i: int, agreed: u64) -> bool {
    exists|k: int|
        0 <= k < heads.len() && #[trigger] heads[k].rpc_list_index == i
            && heads[k].reported_head >= agreed
}

/// The nodes the Pool Arbiter keeps in the active pool: those neither already
/// marked erroring nor reported below the agreed head, in pool order, each
/// unchanged.
pub open spec fn survivors(active: Seq<Rpc>, heads: Seq<HeadResult>, agreed: u64) -> Seq<Rpc>
    decreases active.len(),
{
    if active.len() == 0 {
        Seq::empty()
    } else {
        let rest = survivors(active.drop_last(), heads, agreed);
        if active.last().status.is_erroring || laggard(heads, active.len() - 1, agreed) {
            rest
        } else {
            rest.push(active.last())
        }
    }
}

/// The clones the Pool Arbiter appends to the poverty pool: one per poll
/// result reporting below the agreed head, in result order, each carrying the
/// demoted node's URL with the erroring flag set.
pub open spec fn demoted(active: Seq<Rpc>, heads: Seq<HeadResult>, agreed: u64) -> Seq<Rpc>
    decreases heads.len(),
{
    if heads.len() == 0 {
        Seq::empty()
    } else {
        let rest = demoted(active, heads.drop_last(), agreed);
        let h = heads.last();
        if h.reported_head < agreed {
            rest.push(
                (Rpc {
                    url: active[h.rpc_list_index as int].url,
                    status: (Status { is_erroring: true }),
                }),
            )
        } else {
            rest
        }
    }
}

/// The clones the Recovery Arbiter appends to the active pool: one per poll
/// result reporting at or above the agreed head, in result order, each
/// carrying the recovered node's URL with the erroring flag cleared.
pub open spec fn promoted(poverty: Seq<Rpc>, heads: Seq<HeadResult>, agreed: u64) -> Seq<Rpc>
    decreases heads.len(),
{
    if heads.len() == 0 {
        Seq::empty()
    } else {
        let rest = promoted(poverty, heads.drop_last(), agreed);
        let h = heads.last();
        if h.reported_head >= agreed {
            rest.push(
                (Rpc {
                    url: poverty[h.rpc_list_index as int].url,
                    status: (Status { is_erroring: false }),
                }),
            )
        } else {
            rest
        }
    }
}

/// The nodes the Recovery Arbiter keeps in the poverty pool: those still
/// marked erroring and not reported at or above the agreed head, in pool
/// order, each unchanged.
pub open spec fn remaining(poverty: Seq<Rpc>, heads: Seq<HeadResult>, agreed: u64) -> Seq<Rpc>
    decreases poverty.len(),
{
    if poverty.len() == 0 {
        Seq::empty()
    } else {
        let rest = remaining(poverty.drop_last(), heads, agreed);
        if poverty.last().status.is_erroring && !escaper(heads, poverty.len() - 1, agreed) {
            rest.push(poverty.last())
        } else {
            rest
        }
    }
}

/// No node of the pool carries the in-flight erroring marker; this is how the
/// active pool stands between arbitration passes.
pub open spec fn healthy(pool: Seq<Rpc>) -> bool {
    forall|i: int| 0 <= i < pool.len() ==> !(#[trigger] pool[i]).status.is_erroring
}

/// Every node of the pool carries the erroring marker; this is how the
/// poverty pool stands between arbitration passes.
pub open spec fn all_erroring(pool: Seq<Rpc>) -> bool {
    forall|i: int| 0 <= i < pool.len() ==> (#[trigger] pool[i]).status.is_erroring
}

/// Some poll result in `heads` names slot `i`.
pub open spec fn has_result_for(heads: Seq<HeadResult>, i: int) -> bool {
    exists|k: int| 0 <= k < heads.len() && #[trigger] heads[k].rpc_list_index == i
}

/// `heads` is one full poll pass over a pool of `n` nodes: one result per
/// node, each naming a distinct slot of the pool, in arbitrary order.
pub open spec fn complete_results(heads: Seq<HeadResult>, n: int) -> bool {
    &&& heads.len() == n
    &&& forall|k: int| 0 <= k < heads.len() ==> #[trigger] heads[k].rpc_list_index < n
    &&& forall|k1: int, k2: int|
        0 <= k1 < heads.len() && 0 <= k2 < heads.len() && k1 != k2
            ==> #[trigger] heads[k1].rpc_list_index != #[trigger] heads[k2].rpc_list_index
    &&& forall|i: int| 0 <= i < n ==> #[trigger] has_result_for(heads, i)
}

/// Does any result in `heads` name slot `i` with a reported head below
/// `agreed`?
fn reports_below(heads: &Vec<HeadResult>, i: usize, agreed: u64) -> (b: bool)
    ensures
        b == laggard(heads@, i as int, agreed),
{
    let mut k: usize = 0;
    while k < heads.len()
        invariant
            k <= heads@.len(),
            forall|j: int|
                0 <= j < k
                    ==> !(#[trigger] heads@[j].rpc_list_index == i as int
                        && heads@[j].reported_head < agreed),
        decreases heads@.len() - k,
    {
        if heads[k].rpc_list_index == i && heads[k].reported_head < agreed {
            assert(heads@[k as int].rpc_list_index == i as int);
            return true;
        }
        k += 1;
    }
    false
}

/// Does any result in `heads` name slot `i` with a reported head at or above
/// `agreed`?
fn reports_at_or_above(heads: &Vec<HeadResult>, i: usize, agreed: u64) -> (b: bool)
    ensures
        b == escaper(heads@, i as int, agreed),
{
    let mut k: usize = 0;
    while k < heads.len()
        invariant
            k <= heads@.len(),
            forall|j: int|
                0 <= j < k
                    ==> !(#[trigger] heads@[j].rpc_list_index == i as int
                        && heads@[j].reported_head >= agreed),
        decreases heads@.len() - k,
    {
        if heads[k].rpc_list_index == i && heads[k].reported_head >= agreed {
            assert(heads@[k as int].rpc_list_index == i as int);
            return true;
        }
        k += 1;
    }
    false
}

/// The Pool Arbiter: demote active nodes that fall behind.
///
/// The agreed head is the maximum reported head over `heads` (0 for an empty
/// set). Every node named by a result below the agreed head is appended to
/// the poverty pool as an erroring clone, in result order; the active pool
/// then retains, in order, exactly the nodes that were neither already
/// erroring nor reported below the agreed head. The agreed head is returned
/// for the Recovery Arbiter; the error path is reserved and never taken.
pub fn make_poverty(
    rpc_list: &mut Vec<Rpc>,
    poverty_list: &mut Vec<Rpc>,
    heads: Vec<HeadResult>,
) -> (r: Result<u64, HealthError>)
    requires
        forall|k: int|
            0 <= k < heads@.len()
                ==> #[trigger] heads@[k].rpc_list_index < old(rpc_list)@.len(),
    ensures
        r matches Ok(agreed) && agreed == agreed_head_of(heads@),
        final(rpc_list)@ == survivors(old(rpc_list)@, heads@, agreed_head_of(heads@)),
        final(poverty_list)@ == old(poverty_list)@
            + demoted(old(rpc_list)@, heads@, agreed_head_of(heads@)),
{
    let ghost active0: Seq<Rpc> = rpc_list@;
    let ghost poverty0: Seq<Rpc> = poverty_list@;

    // The agreed head: the maximum reported head over all results.
    let mut agreed: u64 = 0;
    let mut k: usize = 0;
    while k < heads.len()
        invariant
            k <= heads@.len(),
            agreed == agreed_head_of(heads@.take(k as int)),
        decreases heads@.len() - k,
    {
        proof {
            assert(heads@.take(k as int + 1).drop_last() =~= heads@.take(k as int));
            assert(heads@.take(k as int + 1).last() == heads@[k as int]);
        }
        if heads[k].reported_head > agreed {
            agreed = heads[k].reported_head;
        }
        k += 1;
    }
    proof {
        assert(heads@.take(heads@.len() as int) =~= heads@);
    }

    // Append an erroring clone of every laggard to the poverty pool, in
    // result order.
    let mut j: usize = 0;
    while j < heads.len()
        invariant
            j <= heads@.len(),
            rpc_list@ == active0,
            forall|k2: int|
                0 <= k2 < heads@.len()
                    ==> #[trigger] heads@[k2].rpc_list_index < active0.len(),
            poverty_list@ == poverty0 + demoted(active0, heads@.take(j as int), agreed),
        decreases heads@.len() - j,
    {
        proof {
            assert(heads@.take(j as int + 1).drop_last() =~= heads@.take(j as int));
            assert(heads@.take(j as int + 1).last() == heads@[j as int]);
        }
        if heads[j].reported_head < agreed {
            let idx = heads[j].rpc_list_index;
            let url = rpc_list[idx].url.clone();
            poverty_list.push(Rpc { url, status: Status { is_erroring: true } });
            proof {
                assert(poverty_list@ =~= poverty0 + demoted(active0, heads@.take(j as int + 1), agreed));
            }
        }
        j += 1;
    }

    // Retain exactly the nodes that are neither erroring nor laggards.
    let mut kept: Vec<Rpc> = Vec::new();
    let mut i: usize = 0;
    while i < rpc_list.len()
        invariant
            i <= rpc_list@.len(),
            rpc_list@ == active0,
            kept@ == survivors(active0.take(i as int), heads@, agreed),
        decreases rpc_list@.len() - i,
    {
        proof {
            assert(active0.take(i as int + 1).drop_last() =~= active0.take(i as int));
            assert(active0.take(i as int + 1).last() == active0[i as int]);
        }
        let is_laggard = reports_below(&heads, i, agreed);
        if !rpc_list[i].status.is_erroring && !is_laggard {
            kept.push(rpc_list[i].clone());
        }
        i += 1;
    }
    proof {
        assert(active0.take(active0.len() as int) =~= active0);
    }
    *rpc_list = kept;

    Ok(agreed)
}

/// The Recovery Arbiter: promote quarantined nodes that have caught up.
///
/// Every poverty-pool node named by a result at or above `agreed_head` is
/// appended to the active pool as a clone with the erroring flag cleared, in
/// result order; the poverty pool then retains, in order, exactly the nodes
/// that are still erroring and were not reported at or above `agreed_head`.
/// The error path is reserved and never taken.
pub fn escape_poverty(
    rpc_list: &mut Vec<Rpc>,
    poverty_list: &mut Vec<Rpc>,
    poverty_heads: Vec<HeadResult>,
    agreed_head: u64,
) -> (r: Result<(), HealthError>)
    requires
        forall|k: int|
            0 <= k < poverty_heads@.len()
                ==> #[trigger] poverty_heads@[k].rpc_list_index < old(poverty_list)@.len(),
    ensures
        r is Ok,
        final(rpc_list)@ == old(rpc_list)@
            + promoted(old(poverty_list)@, poverty_heads@, agreed_head),
        final(poverty_list)@ == remaining(old(poverty_list)@, poverty_heads@, agreed_head),
{
    let ghost active0: Seq<Rpc> = rpc_list@;
    let ghost poverty0: Seq<Rpc> = poverty_list@;

    // Append a recovered clone of every escapee to the active pool, in
    // result order.
    let mut j: usize = 0;
    while j < poverty_heads.len()
        invariant
            j <= poverty_heads@.len(),
            poverty_list@ == poverty0,
            forall|k2: int|
                0 <= k2 < poverty_heads@.len()
                    ==> #[trigger] poverty_heads@[k2].rpc_list_index < poverty0.len(),
            rpc_list@ == active0 + promoted(poverty0, poverty_heads@.take(j as int), agreed_head),
        decreases poverty_heads@.len() - j,
    {
        proof {
            assert(poverty_heads@.take(j as int + 1).drop_last() =~= poverty_heads@.take(j as int));
            assert(poverty_heads@.take(j as int + 1).last() == poverty_heads@[j as int]);
        }
        if poverty_heads[j].reported_head >= agreed_head {
            let idx = poverty_heads[j].rpc_list_index;
            let url = poverty_list[idx].url.clone();
            rpc_list.push(Rpc { url, status: Status { is_erroring: false } });
            proof {
                assert(rpc_list@ =~= active0
                    + promoted(poverty0, poverty_heads@.take(j as int + 1), agreed_head));
            }
        }
        j += 1;
    }
    proof {
        assert(poverty_heads@.take(poverty_heads@.len() as int) =~= poverty_heads@);
    }

    // Retain exactly the nodes that are still erroring and did not escape.
    let mut kept: Vec<Rpc> = Vec::new();
    let mut i: usize = 0;
    while i < poverty_list.len()
        invariant
            i <= poverty_list@.len(),
            poverty_list@ == poverty0,
            kept@ == remaining(poverty0.take(i as int), poverty_heads@, agreed_head),
        decreases poverty_list@.len() - i,
    {
        proof {
            assert(poverty0.take(i as int + 1).drop_last() =~= poverty0.take(i as int));
            assert(poverty0.take(i as int + 1).last() == poverty0[i as int]);
        }
        let escaped = reports_at_or_above(&poverty_heads, i, agreed_head);
        if poverty_list[i].status.is_erroring && !escaped {
            kept.push(poverty_list[i].clone());
        }
        i += 1;
    }
    proof {
        assert(poverty0.take(poverty0.len() as int) =~= poverty0);
    }
    *poverty_list = kept;

    Ok(())
}

} // verus!
