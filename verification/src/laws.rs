//! The laws of the two arbiters, stated over the spec functions that the
//! arbiters' own contracts use and proved once and for all.

use crate::arbiter::agreed_head_of;
use crate::arbiter::all_erroring;
use crate::arbiter::complete_results;
use crate::arbiter::demoted;
use crate::arbiter::escaper;
use crate::arbiter::has_result_for;
use crate::arbiter::healthy;
use crate::arbiter::laggard;
use crate::arbiter::promoted;
use crate::arbiter::remaining;
use crate::arbiter::survivors;
use crate::head::HeadResult;
use crate::rpc::Rpc;
use crate::rpc::Status;
use vstd::prelude::*;

verus! {

/// Some poll result names slot `i` with a reported head of exactly `agreed`.
pub open spec fn reported_agreed(heads: Seq<HeadResult>, i: int, agreed: u64) -> bool {
    exists|k: int|
        0 <= k < heads.len() && #[trigger] heads[k].rpc_list_index == i
            && heads[k].reported_head == agreed
}

/// The agreed head is the maximum reported head: no result reports above it,
/// some result reports exactly it when the set is non-empty, and an empty
/// set agrees on 0.
pub proof fn lemma_agreed_head_is_max(heads: Seq<HeadResult>)
    ensures
        forall|k: int|
            0 <= k < heads.len()
                ==> #[trigger] heads[k].reported_head <= agreed_head_of(heads),
        heads.len() == 0 ==> agreed_head_of(heads) == 0,
        heads.len() > 0 ==> exists|k: int|
            0 <= k < heads.len() && #[trigger] heads[k].reported_head == agreed_head_of(heads),
    decreases heads.len(),
{
    if heads.len() > 0 {
        let prefix = heads.drop_last();
        lemma_agreed_head_is_max(prefix);
        assert(forall|k: int| 0 <= k < prefix.len() ==> heads[k] == #[trigger] prefix[k]);
        assert forall|k: int|
            0 <= k < heads.len() implies #[trigger] heads[k].reported_head
            <= agreed_head_of(heads) by {
            if k < heads.len() - 1 {
                assert(heads[k] == prefix[k]);
                assert(prefix[k].reported_head <= agreed_head_of(prefix));
            }
        }
        if heads.last().reported_head > agreed_head_of(prefix) {
            assert(heads[heads.len() - 1].reported_head == agreed_head_of(heads));
        } else {
            if prefix.len() == 0 {
                assert(heads[heads.len() - 1].reported_head == agreed_head_of(heads));
            } else {
                let k = choose|k: int|
                    0 <= k < prefix.len() && #[trigger] prefix[k].reported_head
                        == agreed_head_of(prefix);
                assert(heads[k].reported_head == agreed_head_of(heads));
            }
        }
    }
}

/// Every node the Pool Arbiter keeps is an unchanged node of the old active
/// pool that was neither erroring nor reported below the agreed head.
proof fn lemma_survivors_structure(active: Seq<Rpc>, heads: Seq<HeadResult>, agreed: u64)
    ensures
        forall|j: int|
            #![trigger survivors(active, heads, agreed)[j]]
            0 <= j < survivors(active, heads, agreed).len() ==> exists|i: int|
                0 <= i < active.len() && survivors(active, heads, agreed)[j] == #[trigger] active[i]
                    && !active[i].status.is_erroring && !laggard(heads, i, agreed),
    decreases active.len(),
{
    if active.len() > 0 {
        let prefix = active.drop_last();
        lemma_survivors_structure(prefix, heads, agreed);
        assert(forall|i: int| 0 <= i < prefix.len() ==> #[trigger] prefix[i] == active[i]);
        let rest = survivors(prefix, heads, agreed);
        let full = survivors(active, heads, agreed);
        assert forall|j: int| #![trigger full[j]] 0 <= j < full.len() implies exists|i: int|
            0 <= i < active.len() && full[j] == #[trigger] active[i]
                && !active[i].status.is_erroring && !laggard(heads, i, agreed) by {
            if j < rest.len() {
                assert(full[j] == rest[j]);
                let i = choose|i: int|
                    0 <= i < prefix.len() && rest[j] == #[trigger] prefix[i]
                        && !prefix[i].status.is_erroring && !laggard(heads, i, agreed);
                assert(full[j] == active[i] && !active[i].status.is_erroring
                    && !laggard(heads, i, agreed));
            } else {
                assert(full[j] == active[active.len() - 1]);
                assert(!active[active.len() - 1].status.is_erroring
                    && !laggard(heads, active.len() - 1, agreed));
            }
        }
    }
}

/// Every node the Recovery Arbiter keeps in the poverty pool is an unchanged
/// node of the old poverty pool that was still erroring and not reported at
/// or above the agreed head.
proof fn lemma_remaining_structure(poverty: Seq<Rpc>, heads: Seq<HeadResult>, agreed: u64)
    ensures
        forall|j: int|
            #![trigger remaining(poverty, heads, agreed)[j]]
            0 <= j < remaining(poverty, heads, agreed).len() ==> exists|i: int|
                0 <= i < poverty.len() && remaining(poverty, heads, agreed)[j]
                    == #[trigger] poverty[i] && poverty[i].status.is_erroring
                    && !escaper(heads, i, agreed),
    decreases poverty.len(),
{
    if poverty.len() > 0 {
        let prefix = poverty.drop_last();
        lemma_remaining_structure(prefix, heads, agreed);
        assert(forall|i: int| 0 <= i < prefix.len() ==> #[trigger] prefix[i] == poverty[i]);
        let rest = remaining(prefix, heads, agreed);
        let full = remaining(poverty, heads, agreed);
        assert forall|j: int| #![trigger full[j]] 0 <= j < full.len() implies exists|i: int|
            0 <= i < poverty.len() && full[j] == #[trigger] poverty[i]
                && poverty[i].status.is_erroring && !escaper(heads, i, agreed) by {
            if j < rest.len() {
                assert(full[j] == rest[j]);
                let i = choose|i: int|
                    0 <= i < prefix.len() && rest[j] == #[trigger] prefix[i]
                        && prefix[i].status.is_erroring && !escaper(heads, i, agreed);
                assert(full[j] == poverty[i] && poverty[i].status.is_erroring
                    && !escaper(heads, i, agreed));
            } else {
                assert(full[j] == poverty[poverty.len() - 1]);
            }
        }
    }
}

/// Every poll result below the agreed head puts an erroring clone of its
/// node into the Pool Arbiter's demotions.
proof fn lemma_demoted_membership(active: Seq<Rpc>, heads: Seq<HeadResult>, agreed: u64)
    ensures
        forall|k: int|
            0 <= k < heads.len() && #[trigger] heads[k].reported_head < agreed
                ==> demoted(active, heads, agreed).contains(
                    (Rpc {
                        url: active[heads[k].rpc_list_index as int].url,
                        status: (Status { is_erroring: true }),
                    }),
                ),
    decreases heads.len(),
{
    if heads.len() > 0 {
        let prefix = heads.drop_last();
        lemma_demoted_membership(active, prefix, agreed);
        assert(forall|k: int| 0 <= k < prefix.len() ==> #[trigger] prefix[k] == heads[k]);
        let rest = demoted(active, prefix, agreed);
        let full = demoted(active, heads, agreed);
        assert forall|k: int|
            0 <= k < heads.len() && #[trigger] heads[k].reported_head < agreed
                implies full.contains(
            (Rpc {
                url: active[heads[k].rpc_list_index as int].url,
                status: (Status { is_erroring: true }),
            }),
        ) by {
            let target = Rpc {
                url: active[heads[k].rpc_list_index as int].url,
                status: Status { is_erroring: true },
            };
            if k < heads.len() - 1 {
                assert(heads[k] == prefix[k]);
                assert(prefix[k].reported_head < agreed);
                assert(rest.contains(
                    (Rpc {
                        url: active[prefix[k].rpc_list_index as int].url,
                        status: (Status { is_erroring: true }),
                    }),
                ));
                assert(rest.contains(target));
                let j = choose|j: int| 0 <= j < rest.len() && rest[j] == target;
                assert(full[j] == target);
                assert(full.contains(target));
            } else {
                assert(full[full.len() - 1] == target);
                assert(full.contains(target));
            }
        }
    }
}

/// Every clone the Pool Arbiter appends to the poverty pool carries the
/// erroring flag, so the Recovery Arbiter's retention keeps it quarantined
/// until it catches up.
proof fn lemma_demoted_all_erroring(active: Seq<Rpc>, heads: Seq<HeadResult>, agreed: u64)
    ensures
        all_erroring(demoted(active, heads, agreed)),
    decreases heads.len(),
{
    if heads.len() > 0 {
        lemma_demoted_all_erroring(active, heads.drop_last(), agreed);
    }
}

/// Every poll result at or above the agreed head puts a clone of its node,
/// with the erroring flag cleared, into the Recovery Arbiter's promotions.
proof fn lemma_promoted_membership(poverty: Seq<Rpc>, heads: Seq<HeadResult>, agreed: u64)
    ensures
        forall|k: int|
            0 <= k < heads.len() && #[trigger] heads[k].reported_head >= agreed
                ==> promoted(poverty, heads, agreed).contains(
                    (Rpc {
                        url: poverty[heads[k].rpc_list_index as int].url,
                        status: (Status { is_erroring: false }),
                    }),
                ),
    decreases heads.len(),
{
    if heads.len() > 0 {
        let prefix = heads.drop_last();
        lemma_promoted_membership(poverty, prefix, agreed);
        assert(forall|k: int| 0 <= k < prefix.len() ==> #[trigger] prefix[k] == heads[k]);
        let rest = promoted(poverty, prefix, agreed);
        let full = promoted(poverty, heads, agreed);
        assert forall|k: int|
            0 <= k < heads.len() && #[trigger] heads[k].reported_head >= agreed
                implies full.contains(
            (Rpc {
                url: poverty[heads[k].rpc_list_index as int].url,
                status: (Status { is_erroring: false }),
            }),
        ) by {
            let target = Rpc {
                url: poverty[heads[k].rpc_list_index as int].url,
                status: Status { is_erroring: false },
            };
            if k < heads.len() - 1 {
                assert(heads[k] == prefix[k]);
                assert(prefix[k].reported_head >= agreed);
                assert(rest.contains(
                    (Rpc {
                        url: poverty[prefix[k].rpc_list_index as int].url,
                        status: (Status { is_erroring: false }),
                    }),
                ));
                assert(rest.contains(target));
                let j = choose|j: int| 0 <= j < rest.len() && rest[j] == target;
                assert(full[j] == target);
                assert(full.contains(target));
            } else {
                assert(full[full.len() - 1] == target);
                assert(full.contains(target));
            }
        }
    }
}

/// Under a full poll pass, a slot that no result places below the agreed
/// head was reported at exactly the agreed head.
proof fn lemma_non_laggard_reported_agreed(heads: Seq<HeadResult>, n: int, i: int)
    requires
        complete_results(heads, n),
        0 <= i < n,
        !laggard(heads, i, agreed_head_of(heads)),
    ensures
        reported_agreed(heads, i, agreed_head_of(heads)),
{
    let agreed = agreed_head_of(heads);
    assert(has_result_for(heads, i));
    let k = choose|k: int| 0 <= k < heads.len() && #[trigger] heads[k].rpc_list_index == i;
    lemma_agreed_head_is_max(heads);
    assert(heads[k].reported_head <= agreed);
    assert(heads[k].reported_head >= agreed) by {
        if heads[k].reported_head < agreed {
            assert(laggard(heads, i, agreed));
        }
    }
    assert(heads[k].rpc_list_index == i && heads[k].reported_head == agreed);
}

/// The Pool Arbiter's partition law. After one full, healthy poll pass over
/// the active pool: every node kept in the active pool is an unchanged node
/// that reported exactly the agreed head; every result below the agreed head
/// left an erroring clone of its node among the demotions; every demotion is
/// marked erroring; and not one node is lost — kept and demoted nodes
/// together number exactly the old active pool.
pub proof fn lemma_pool_arbiter_partition(active: Seq<Rpc>, heads: Seq<HeadResult>)
    requires
        healthy(active),
        complete_results(heads, active.len() as int),
    ensures
        forall|j: int|
            #![trigger survivors(active, heads, agreed_head_of(heads))[j]]
            0 <= j < survivors(active, heads, agreed_head_of(heads)).len() ==> exists|i: int|
                0 <= i < active.len() && survivors(active, heads, agreed_head_of(heads))[j]
                    == #[trigger] active[i]
                    && reported_agreed(heads, i, agreed_head_of(heads)),
        forall|k: int|
            0 <= k < heads.len() && #[trigger] heads[k].reported_head < agreed_head_of(heads)
                ==> demoted(active, heads, agreed_head_of(heads)).contains(
                    (Rpc {
                        url: active[heads[k].rpc_list_index as int].url,
                        status: (Status { is_erroring: true }),
                    }),
                ),
        all_erroring(demoted(active, heads, agreed_head_of(heads))),
        survivors(active, heads, agreed_head_of(heads)).len()
            + demoted(active, heads, agreed_head_of(heads)).len() == active.len(),
{
    let agreed = agreed_head_of(heads);
    lemma_survivors_structure(active, heads, agreed);
    lemma_demoted_membership(active, heads, agreed);
    lemma_demoted_all_erroring(active, heads, agreed);
    lemma_pool_arbiter_preserves_count(active, heads, agreed);
    let full = survivors(active, heads, agreed);
    assert forall|j: int| #![trigger full[j]] 0 <= j < full.len() implies exists|i: int|
        0 <= i < active.len() && full[j] == #[trigger] active[i]
            && reported_agreed(heads, i, agreed) by {
        let i = choose|i: int|
            0 <= i < active.len() && full[j] == #[trigger] active[i]
                && !active[i].status.is_erroring && !laggard(heads, i, agreed);
        lemma_non_laggard_reported_agreed(heads, active.len() as int, i);
        assert(full[j] == active[i] && reported_agreed(heads, i, agreed));
    }
}

/// The node at position `j` of what the Recovery Arbiter keeps is an
/// unchanged, still-erroring poverty-pool node that some poll result placed
/// below the threshold.
pub open spec fn kept_from_lagging_slot(
    poverty: Seq<Rpc>,
    heads: Seq<HeadResult>,
    agreed: u64,
    j: int,
) -> bool {
    exists|i: int|
        0 <= i < poverty.len() && remaining(poverty, heads, agreed)[j] == #[trigger] poverty[i]
            && poverty[i].status.is_erroring && laggard(heads, i, agreed)
}

/// The Recovery Arbiter's law, with threshold `agreed`. After one full poll
/// pass over the poverty pool: every result at or above the threshold put a
/// clone of its node, erroring flag cleared, among the promotions appended
/// to the active pool; and every node kept in the poverty pool is an
/// unchanged, still-erroring node that some result placed below the
/// threshold.
pub proof fn lemma_recovery_arbiter(poverty: Seq<Rpc>, heads: Seq<HeadResult>, agreed: u64)
    requires
        complete_results(heads, poverty.len() as int),
    ensures
        forall|k: int|
            0 <= k < heads.len() && #[trigger] heads[k].reported_head >= agreed
                ==> promoted(poverty, heads, agreed).contains(
                    (Rpc {
                        url: poverty[heads[k].rpc_list_index as int].url,
                        status: (Status { is_erroring: false }),
                    }),
                ),
        forall|j: int|
            0 <= j < remaining(poverty, heads, agreed).len()
                ==> #[trigger] kept_from_lagging_slot(poverty, heads, agreed, j),
{
    lemma_promoted_membership(poverty, heads, agreed);
    lemma_remaining_structure(poverty, heads, agreed);
    assert forall|j: int|
        0 <= j < remaining(poverty, heads, agreed).len()
            implies #[trigger] kept_from_lagging_slot(poverty, heads, agreed, j) by {
        let i = choose|i: int|
            0 <= i < poverty.len() && remaining(poverty, heads, agreed)[j]
                == #[trigger] poverty[i] && poverty[i].status.is_erroring
                && !escaper(heads, i, agreed);
        assert(has_result_for(heads, i));
        let k = choose|k: int| 0 <= k < heads.len() && #[trigger] heads[k].rpc_list_index == i;
        assert(heads[k].reported_head < agreed) by {
            if heads[k].reported_head >= agreed {
                assert(escaper(heads, i, agreed));
            }
        }
        assert(laggard(heads, i, agreed));
        assert(0 <= i < poverty.len() && remaining(poverty, heads, agreed)[j] == poverty[i]
            && poverty[i].status.is_erroring && laggard(heads, i, agreed));
    }
}

/// Idempotence of the Pool Arbiter: when no result reports below the agreed
/// head — as holds of the surviving nodes' results right after an
/// arbitration pass — a healthy active pool is kept whole and nothing is
/// demoted.
pub proof fn lemma_pool_arbiter_idempotent(active: Seq<Rpc>, heads: Seq<HeadResult>)
    requires
        healthy(active),
        forall|k: int|
            0 <= k < heads.len()
                ==> #[trigger] heads[k].reported_head == agreed_head_of(heads),
    ensures
        survivors(active, heads, agreed_head_of(heads)) == active,
        demoted(active, heads, agreed_head_of(heads)) == Seq::<Rpc>::empty(),
{
    let agreed = agreed_head_of(heads);
    lemma_no_laggards_keeps_all(active, heads, agreed);
    lemma_no_results_below_demotes_none(active, heads, agreed);
}

/// When no result reports below the threshold, every non-erroring node
/// survives unchanged.
proof fn lemma_no_laggards_keeps_all(active: Seq<Rpc>, heads: Seq<HeadResult>, agreed: u64)
    requires
        healthy(active),
        forall|k: int| 0 <= k < heads.len() ==> #[trigger] heads[k].reported_head >= agreed,
    ensures
        survivors(active, heads, agreed) == active,
    decreases active.len(),
{
    if active.len() == 0 {
        assert(survivors(active, heads, agreed) =~= active);
    } else {
        let prefix = active.drop_last();
        lemma_no_laggards_keeps_all(prefix, heads, agreed);
        assert(!laggard(heads, active.len() - 1, agreed));
        assert(survivors(active, heads, agreed) =~= active);
    }
}

/// When no result reports below the threshold, nothing is demoted.
proof fn lemma_no_results_below_demotes_none(active: Seq<Rpc>, heads: Seq<HeadResult>, agreed: u64)
    requires
        forall|k: int| 0 <= k < heads.len() ==> #[trigger] heads[k].reported_head >= agreed,
    ensures
        demoted(active, heads, agreed) == Seq::<Rpc>::empty(),
    decreases heads.len(),
{
    if heads.len() == 0 {
        assert(demoted(active, heads, agreed) =~= Seq::<Rpc>::empty());
    } else {
        lemma_no_results_below_demotes_none(active, heads.drop_last(), agreed);
    }
}

/// How many results report below the threshold.
spec fn count_below(heads: Seq<HeadResult>, agreed: u64) -> int
    decreases heads.len(),
{
    if heads.len() == 0 {
        0
    } else {
        count_below(heads.drop_last(), agreed) + if heads.last().reported_head < agreed {
            1int
        } else {
            0int
        }
    }
}

/// The Pool Arbiter demotes one clone per result below the threshold.
proof fn lemma_demoted_len(active: Seq<Rpc>, heads: Seq<HeadResult>, agreed: u64)
    ensures
        demoted(active, heads, agreed).len() == count_below(heads, agreed),
    decreases heads.len(),
{
    if heads.len() > 0 {
        lemma_demoted_len(active, heads.drop_last(), agreed);
    }
}

/// Dropping one result drops its own contribution to the below-threshold
/// count and nothing else.
proof fn lemma_count_below_remove(heads: Seq<HeadResult>, agreed: u64, p: int)
    requires
        0 <= p < heads.len(),
    ensures
        count_below(heads.remove(p), agreed) == count_below(heads, agreed) - (
        if heads[p].reported_head < agreed {
            1int
        } else {
            0int
        }),
    decreases heads.len(),
{
    if p == heads.len() - 1 {
        assert(heads.remove(p) =~= heads.drop_last());
    } else {
        let prefix = heads.drop_last();
        lemma_count_below_remove(prefix, agreed, p);
        assert(heads.remove(p).drop_last() =~= prefix.remove(p));
        assert(heads.remove(p).last() == heads.last());
    }
}

/// Removing the result of one slot changes no other slot's standing against
/// the threshold.
proof fn lemma_laggard_remove(heads: Seq<HeadResult>, p: int, i: int, agreed: u64)
    requires
        0 <= p < heads.len(),
        heads[p].rpc_list_index != i,
    ensures
        laggard(heads.remove(p), i, agreed) == laggard(heads, i, agreed),
{
    let h2 = heads.remove(p);
    assert(forall|k: int| 0 <= k < p ==> #[trigger] h2[k] == heads[k]);
    assert(forall|k: int| p <= k < h2.len() ==> #[trigger] h2[k] == heads[k + 1]);
    if laggard(heads, i, agreed) {
        let k = choose|k: int|
            0 <= k < heads.len() && #[trigger] heads[k].rpc_list_index == i
                && heads[k].reported_head < agreed;
        if k < p {
            assert(h2[k].rpc_list_index == i && h2[k].reported_head < agreed);
        } else {
            assert(k != p);
            assert(h2[k - 1].rpc_list_index == i && h2[k - 1].reported_head < agreed);
        }
        assert(laggard(h2, i, agreed));
    }
    if laggard(h2, i, agreed) {
        let k = choose|k: int|
            0 <= k < h2.len() && #[trigger] h2[k].rpc_list_index == i
                && h2[k].reported_head < agreed;
        if k < p {
            assert(heads[k].rpc_list_index == i && heads[k].reported_head < agreed);
        } else {
            assert(heads[k + 1].rpc_list_index == i && heads[k + 1].reported_head < agreed);
        }
        assert(laggard(heads, i, agreed));
    }
}

/// Keeping or dropping a node depends only on each slot's standing, so two
/// result sets that agree on every slot keep the same nodes.
proof fn lemma_survivors_same_standing(
    active: Seq<Rpc>,
    h1: Seq<HeadResult>,
    h2: Seq<HeadResult>,
    agreed: u64,
)
    requires
        forall|i: int|
            0 <= i < active.len() ==> laggard(h1, i, agreed) == #[trigger] laggard(h2, i, agreed),
    ensures
        survivors(active, h1, agreed) == survivors(active, h2, agreed),
    decreases active.len(),
{
    if active.len() > 0 {
        lemma_survivors_same_standing(active.drop_last(), h1, h2, agreed);
        assert(laggard(h1, active.len() - 1, agreed) == laggard(h2, active.len() - 1, agreed));
    }
}

/// Removing the one result that names the last slot of the pool leaves one
/// full poll pass over the pool without its last node.
proof fn lemma_complete_remove(heads: Seq<HeadResult>, n: int, p: int)
    requires
        complete_results(heads, n),
        0 <= p < heads.len(),
        heads[p].rpc_list_index == n - 1,
    ensures
        complete_results(heads.remove(p), n - 1),
{
    let h2 = heads.remove(p);
    assert(forall|k: int| 0 <= k < p ==> #[trigger] h2[k] == heads[k]);
    assert(forall|k: int| p <= k < h2.len() ==> #[trigger] h2[k] == heads[k + 1]);
    assert forall|k: int| 0 <= k < h2.len() implies #[trigger] h2[k].rpc_list_index < n - 1 by {
        let k0: int = if k < p {
            k
        } else {
            k + 1
        };
        assert(h2[k] == heads[k0]);
        assert(heads[k0].rpc_list_index < n);
        assert(k0 != p ==> heads[k0].rpc_list_index != heads[p].rpc_list_index);
    }
    assert forall|k1: int, k2: int|
        0 <= k1 < h2.len() && 0 <= k2 < h2.len() && k1 != k2
            implies #[trigger] h2[k1].rpc_list_index != #[trigger] h2[k2].rpc_list_index by {
        let a1: int = if k1 < p {
            k1
        } else {
            k1 + 1
        };
        let a2: int = if k2 < p {
            k2
        } else {
            k2 + 1
        };
        assert(h2[k1] == heads[a1] && h2[k2] == heads[a2]);
        assert(a1 != a2);
    }
    assert forall|i: int| 0 <= i < n - 1 implies #[trigger] has_result_for(h2, i) by {
        assert(has_result_for(heads, i));
        let k = choose|k: int| 0 <= k < heads.len() && #[trigger] heads[k].rpc_list_index == i;
        assert(k != p);
        if k < p {
            assert(h2[k].rpc_list_index == i);
        } else {
            assert(h2[k - 1].rpc_list_index == i);
        }
    }
}

/// Together, the nodes the Pool Arbiter keeps and the clones it demotes
/// number exactly the polled pool, whatever the threshold.
proof fn lemma_pool_arbiter_preserves_count(active: Seq<Rpc>, heads: Seq<HeadResult>, agreed: u64)
    requires
        healthy(active),
        complete_results(heads, active.len() as int),
    ensures
        survivors(active, heads, agreed).len() + demoted(active, heads, agreed).len()
            == active.len(),
    decreases active.len(),
{
    let n = active.len() as int;
    lemma_demoted_len(active, heads, agreed);
    if n == 0 {
    } else {
        let prefix = active.drop_last();
        assert(has_result_for(heads, n - 1));
        let p = choose|k: int| 0 <= k < heads.len() && #[trigger] heads[k].rpc_list_index == n - 1;
        let h2 = heads.remove(p);
        lemma_complete_remove(heads, n, p);
        assert(forall|i: int| 0 <= i < prefix.len() ==> #[trigger] prefix[i] == active[i]);
        lemma_pool_arbiter_preserves_count(prefix, h2, agreed);
        lemma_demoted_len(prefix, h2, agreed);
        lemma_count_below_remove(heads, agreed, p);
        assert forall|i: int|
            0 <= i < prefix.len() implies laggard(heads, i, agreed) == #[trigger] laggard(
            h2,
            i,
            agreed,
        ) by {
            assert(heads[p].rpc_list_index != i);
            lemma_laggard_remove(heads, p, i, agreed);
        }
        lemma_survivors_same_standing(prefix, heads, h2, agreed);
        // The last slot lags exactly when its own result reports below the
        // threshold.
        assert(laggard(heads, n - 1, agreed) == (heads[p].reported_head < agreed)) by {
            if laggard(heads, n - 1, agreed) {
                let k = choose|k: int|
                    0 <= k < heads.len() && #[trigger] heads[k].rpc_list_index == n - 1
                        && heads[k].reported_head < agreed;
                assert(k == p);
            }
            if heads[p].reported_head < agreed {
                assert(laggard(heads, n - 1, agreed));
            }
        }
        assert(!active[n - 1].status.is_erroring);
    }
}

} // verus!
