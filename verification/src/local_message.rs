//! A local message: one a process hands to or takes from its own node, shown
//! in the node's inspector rather than animated across the plane.

use vstd::prelude::*;

verus! {

/// Direction of a local message.
#[derive(Clone, Copy, Debug, PartialEq, Eq, Structural)]
pub enum LocalMessageType {
    Sent,
    Received,
}

/// A local message, kept for the node inspector windows.
#[derive(Debug, Clone)]
pub struct StateLocalMessage {
    pub id: String,
    pub time: u64,
    pub node: String,
    pub data: String,
    pub msg_type: LocalMessageType,
}

impl StateLocalMessage {
    pub fn new(
        id: String,
        time: u64,
        node: String,
        data: String,
        msg_type: LocalMessageType,
    ) -> (r: StateLocalMessage)
        ensures
            r.id == id && r.time == time && r.node == node && r.data == data
                && r.msg_type == msg_type,
    {
        StateLocalMessage { id, time, node, data, msg_type }
    }
}

} // verus!
