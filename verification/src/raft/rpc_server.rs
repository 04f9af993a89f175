//! What a node answers to the requests of other nodes.

use super::worker::RpcResult;
use crate::webrtc_rpc::transport;
use vstd::prelude::*;

verus! {

/// The answer to a request that was handed to the node. `None` where the node dropped
/// the request: it probably changed its role meanwhile, so that there is no reasonable
/// answer.
pub fn handle<Item>(response: Option<RpcResult<Item>>) -> (r: RpcResult<Item>)
    ensures
        match response {
            Some(resp) => r == resp,
            None => r matches Err(err) && err is Unavailable,
        },
{
    match response {
        Some(resp) => resp,
        None => Err(transport::Error::Unavailable),
    }
}

} // verus!
