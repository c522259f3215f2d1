//! Poll results: one node's answer to a head poll.

use vstd::prelude::*;

verus! {

/// One node's answer to a head poll: the slot of the polled pool it belongs
/// to, and the block height that node reported. A reported head of 0 is the
/// sentinel for an unresponsive or erroring node.
#[derive(Clone, Copy, PartialEq, Eq, Structural, Debug)]
pub struct HeadResult {
    pub rpc_list_index: usize,
    pub reported_head: u64,
}

/// Normalize the outcome of one time-bounded head query. A successful
/// response carries the reported height; a transport error or an exceeded
/// deadline carries nothing and becomes the sentinel head 0, so that a
/// failing node is never distinguished from a node at height 0 and is
/// demoted on the next arbitration pass.
pub fn normalize_head(rpc_list_index: usize, outcome: Option<u64>) -> (r: HeadResult)
    ensures
        r.rpc_list_index == rpc_list_index,
        r.reported_head == (match outcome {
            Some(h) => h,
            None => 0u64,
        }),
{
    let reported_head: u64 = match outcome {
        Some(h) => h,
        None => 0,
    };
    HeadResult { rpc_list_index, reported_head }
}

} // verus!
