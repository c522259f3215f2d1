//! Reaction to transport-level failures: quarantine the dropped node.

use crate::error::HealthError;
use crate::rpc::Rpc;
use vstd::prelude::*;

verus! {

/// Transport-failure notification: the WebSocket connection of the
/// active-pool node at the named index dropped.
#[derive(Clone, Copy, PartialEq, Eq, Structural, Debug)]
pub enum WsChannelErr {
    Closed(usize),
}

/// Quarantine the node whose transport dropped: if the named index is still
/// present in the active pool, append a clone of that node to the poverty
/// pool and remove it from the active pool; a stale index (the node was
/// already removed by an earlier cycle or notification) mutates nothing.
/// The caller migrates the node's subscriptions and requests a reconnect
/// afterwards, in either case.
pub fn send_dropped_to_poverty(
    rpc_list: &mut Vec<Rpc>,
    poverty_list: &mut Vec<Rpc>,
    ws_conn_index: usize,
)
    ensures
        ws_conn_index < old(rpc_list)@.len() ==> {
            &&& final(rpc_list)@ == old(rpc_list)@.remove(ws_conn_index as int)
            &&& final(poverty_list)@ == old(poverty_list)@.push(
                old(rpc_list)@[ws_conn_index as int],
            )
        },
        ws_conn_index >= old(rpc_list)@.len() ==> {
            &&& final(rpc_list)@ == old(rpc_list)@
            &&& final(poverty_list)@ == old(poverty_list)@
        },
{
    if ws_conn_index < rpc_list.len() {
        let dropped = rpc_list[ws_conn_index].clone();
        poverty_list.push(dropped);
        rpc_list.remove(ws_conn_index);
    }
}

/// One step of the dropped-connection listener: the decision taken for one
/// receive on the failure-notification channel. A notification quarantines
/// the named node (see [`send_dropped_to_poverty`]) and returns its index, so
/// that the caller can migrate subscriptions and request a reconnect — both
/// attempted even when the index was stale. A closed channel (no
/// notification) is a protocol violation: the pools are untouched and a
/// fatal error is returned.
pub fn dropped_listener_step(
    rpc_list: &mut Vec<Rpc>,
    poverty_list: &mut Vec<Rpc>,
    notification: Option<WsChannelErr>,
) -> (r: Result<usize, HealthError>)
    ensures
        match notification {
            Some(WsChannelErr::Closed(index)) => {
                &&& r matches Ok(i) && i == index
                &&& index < old(rpc_list)@.len() ==> {
                    &&& final(rpc_list)@ == old(rpc_list)@.remove(index as int)
                    &&& final(poverty_list)@ == old(poverty_list)@.push(
                        old(rpc_list)@[index as int],
                    )
                }
                &&& index >= old(rpc_list)@.len() ==> {
                    &&& final(rpc_list)@ == old(rpc_list)@
                    &&& final(poverty_list)@ == old(poverty_list)@
                }
            },
            None => {
                &&& r matches Err(HealthError::InvalidResponse(m)) && m@
                    == "Expected WsChannelErr!"@
                &&& final(rpc_list)@ == old(rpc_list)@
                &&& final(poverty_list)@ == old(poverty_list)@
            },
        },
{
    match notification {
        Some(WsChannelErr::Closed(index)) => {
            send_dropped_to_poverty(rpc_list, poverty_list, index);
            Ok(index)
        },
        None => Err(HealthError::InvalidResponse("Expected WsChannelErr!".to_owned())),
    }
}

} // verus!
