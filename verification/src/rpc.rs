//! Node handles: one per upstream RPC endpoint.

use vstd::prelude::*;

verus! {

/// Mutable health status of a node. `is_erroring` is an in-flight marker used
/// during a single arbitration pass; pool membership, not this flag, is the
/// source of truth for routing.
#[derive(Clone, Copy, PartialEq, Eq, Structural, Debug)]
#[verifier::ext_equal]
pub struct Status {
    pub is_erroring: bool,
}

/// Handle for one upstream RPC endpoint: its URL and its health status.
/// Handles are cheap to clone; every cross-pool move is "clone into the
/// destination, then drop from the source".
#[derive(Debug)]
#[verifier::ext_equal]
pub struct Rpc {
    pub url: String,
    pub status: Status,
}

impl Clone for Rpc {
    fn clone(&self) -> (r: Self)
        ensures
            r == *self,
    {
        let r = Rpc { url: self.url.clone(), status: self.status };
        proof {
            assert(r =~= *self);
        }
        r
    }
}

impl Default for Rpc {
    fn default() -> (r: Self)
        ensures
            r.url@ == Seq::<char>::empty(),
            !r.status.is_erroring,
    {
        let url = "".to_owned();
        proof {
            reveal_strlit("");
            assert(url@ =~= Seq::<char>::empty());
        }
        Rpc { url, status: Status { is_erroring: false } }
    }
}

} // verus!
