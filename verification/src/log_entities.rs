//! The recorded event log: one entry per timestamped occurrence in the
//! replayed run. Times and delays are in replay-clock ticks.

use vstd::prelude::*;

verus! {

/// One recorded entry of the event log.
#[derive(Debug, Clone)]
pub enum LogEntry {
    NodeStarted { time: u64, node: String, node_id: u32 },
    ProcessStarted { time: u64, node: String, proc: String },
    LocalMessageSent {
        time: u64,
        msg_id: String,
        node: String,
        proc: String,
        msg_tip: String,
        msg_data: String,
    },
    LocalMessageReceived {
        time: u64,
        msg_id: String,
        node: String,
        proc: String,
        msg_tip: String,
        msg_data: String,
    },
    MessageSent {
        time: u64,
        msg_id: String,
        src_node: String,
        src_proc: String,
        dest_node: String,
        dest_proc: String,
        msg_tip: String,
        msg_data: String,
    },
    MessageReceived { time: u64, msg_id: String },
    MessageDropped { time: u64, msg_id: String },
    NodeConnected { time: u64, node: String },
    NodeDisconnected { time: u64, node: String },
    NodeCrashed { time: u64, node: String },
    NodeRecovered { time: u64, node: String },
    TimerSet {
        time: u64,
        timer_id: String,
        timer_name: String,
        node: String,
        proc: String,
        delay: u64,
    },
    TimerFired { time: u64, timer_id: String },
    TimerCancelled { time: u64, timer_id: String },
    LinkDisabled {
        time: u64,
        from_node: String,
        from_proc: String,
        to_node: String,
        to_proc: String,
    },
    LinkEnabled {
        time: u64,
        from_node: String,
        from_proc: String,
        to_node: String,
        to_proc: String,
    },
    DropIncoming { time: u64, node: String },
    PassIncoming { time: u64, node: String },
    DropOutgoing { time: u64, node: String },
    PassOutgoing { time: u64, node: String },
    MakePartition {
        time: u64,
        group1_nodes: Vec<String>,
        group1_procs: Vec<String>,
        group2_nodes: Vec<String>,
        group2_procs: Vec<String>,
    },
    ResetNetwork { time: u64 },
    ProcessStateUpdated { time: u64, node: String, proc: String, state: String },
}

} // verus!
