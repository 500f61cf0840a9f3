//! Replay core for an animated visualization of a recorded distributed-system
//! event log: nodes, travelling messages, per-node timers, and a replay clock
//! driven by commands parsed from the log.
//!
//! Times are integer ticks (milliseconds of replay time), positions are
//! integer pixel coordinates, and speeds are in thousandths (a `global_speed`
//! of 1000 replays at real-time pace). The library holds the replay logic
//! only: window management, drawing, input sampling, file reading and layout
//! geometry live with the program around it, which converts these plain
//! values to and from its own floating-point types.

pub mod event_controller;
pub mod local_message;
pub mod log_entities;
pub mod message;
pub mod node;
pub mod state;
pub mod timer;
pub mod utilities;
