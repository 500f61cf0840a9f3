//! The event controller: it turns the recorded log entries into timestamped
//! commands, sorts them by time (stably), and feeds them to the replay state.

use vstd::prelude::*;
use crate::log_entities::LogEntry;
use crate::state::{
    spec_command_queued, spec_local_message_applied, spec_message_sent_applied,
    spec_node_started_applied, State, StateEvent,
};
use crate::timer::StateTimer;
use crate::utilities::{
    Point, TIME_LIMIT, prettify_json_string, remove_backslashes, json_parses, json_pretty,
    spec_strip_backslashes,
};

verus! {

/// Direction of a recorded local message.
#[derive(Clone, Copy, Debug, PartialEq, Eq, Structural)]
pub enum LocalMessageType {
    Sent,
    Received,
}

/// A command for the replay state, to take effect at its recorded time.
#[derive(Debug)]
pub enum ControllerStateCommand {
    MessageSent(String),
    LocalMessageEmerged(String),
    NodeConnected(String),
    NodeDisconnected(String),
    NodeStarted(ControllerNode),
    TimerSet(String),
    LinkDisabled((String, String)),
    LinkEnabled((String, String)),
    DropIncoming(String),
    PassIncoming(String),
    DropOutgoing(String),
    PassOutgoing(String),
    NetworkPartition((Vec<String>, Vec<String>)),
    NetworkReset(),
    NodeStateUpdated((String, String)),
}

/// A recorded local message, kept by id until its command is dispatched.
#[derive(Debug)]
pub struct ControllerLocalMessage {
    pub id: String,
    pub node: String,
    pub proc: String,
    pub tip: String,
    pub data: String,
    pub time: u64,
    pub msg_type: LocalMessageType,
}

/// A recorded message. `time_received` is -1 until a receipt entry arrives;
/// `copies_received` counts the receipts.
#[derive(Debug)]
pub struct ControllerMessage {
    pub id: String,
    pub src_node: String,
    pub src_proc: String,
    pub dest_node: String,
    pub dest_proc: String,
    pub tip: String,
    pub data: String,
    pub time_sent: u64,
    pub time_received: i64,
    pub copies_received: u64,
}

/// A recorded timer. `time_removed` is -1 until a fired or cancelled entry
/// arrives.
#[derive(Debug)]
pub struct ControllerTimer {
    pub id: String,
    pub name: String,
    pub node: String,
    pub proc: String,
    pub time_set: u64,
    pub delay: u64,
    pub time_removed: i64,
}

/// A node read out of the log, with the position the layout gave it.
#[derive(Debug)]
pub struct ControllerNode {
    pub name: String,
    pub id: u32,
    pub pos: Point,
}

/// The controller: the recorded messages, local messages and timers by kind,
/// and the command list to dispatch.
pub struct EventController {
    pub local_messages: Vec<ControllerLocalMessage>,
    pub messages: Vec<ControllerMessage>,
    pub timers: Vec<ControllerTimer>,
    pub commands: Vec<(u64, ControllerStateCommand)>,
}

/// How many entries of the log start a node.
pub open spec fn spec_count_node_started(entries: Seq<LogEntry>) -> int
    decreases entries.len(),
{
    if entries.len() == 0 {
        0
    } else {
        (match entries[0] {
            LogEntry::NodeStarted { .. } => 1int,
            _ => 0int,
        }) + spec_count_node_started(entries.drop_first())
    }
}

/// The node count of a log is never negative.
pub proof fn lemma_count_node_started_nonneg(entries: Seq<LogEntry>)
    ensures
        spec_count_node_started(entries) >= 0,
    decreases entries.len(),
{
    if entries.len() > 0 {
        lemma_count_node_started_nonneg(entries.drop_first());
    }
}

/// The position of the first recorded message with this id.
pub open spec fn spec_find_message_idx(msgs: Seq<ControllerMessage>, id: Seq<char>) -> Option<int>
    decreases msgs.len(),
{
    if msgs.len() == 0 {
        None::<int>
    } else if msgs[0].id@ == id {
        Some(0int)
    } else {
        match spec_find_message_idx(msgs.drop_first(), id) {
            Some(k) => Some(k + 1),
            None => None::<int>,
        }
    }
}

/// The position of the first recorded local message with this id.
pub open spec fn spec_find_local_idx(
    msgs: Seq<ControllerLocalMessage>,
    id: Seq<char>,
) -> Option<int>
    decreases msgs.len(),
{
    if msgs.len() == 0 {
        None::<int>
    } else if msgs[0].id@ == id {
        Some(0int)
    } else {
        match spec_find_local_idx(msgs.drop_first(), id) {
            Some(k) => Some(k + 1),
            None => None::<int>,
        }
    }
}

/// The position of the first recorded timer with this id.
pub open spec fn spec_find_timer_idx(timers: Seq<ControllerTimer>, id: Seq<char>) -> Option<int>
    decreases timers.len(),
{
    if timers.len() == 0 {
        None::<int>
    } else if timers[0].id@ == id {
        Some(0int)
    } else {
        match spec_find_timer_idx(timers.drop_first(), id) {
            Some(k) => Some(k + 1),
            None => None::<int>,
        }
    }
}

/// A position whose record carries `id`, with none earlier, is the first.
pub proof fn lemma_find_message_at(msgs: Seq<ControllerMessage>, id: Seq<char>, i: int)
    requires
        0 <= i < msgs.len(),
        msgs[i].id@ == id,
        forall|w: int| 0 <= w < i ==> (#[trigger] msgs[w]).id@ != id,
    ensures
        spec_find_message_idx(msgs, id) == Some(i),
    decreases i,
{
    if i > 0 {
        assert(msgs[0].id@ != id);
        assert(msgs.drop_first()[i - 1].id@ == id);
        assert forall|w: int| 0 <= w < i - 1 implies (#[trigger] msgs.drop_first()[w]).id@
            != id by {
            assert(msgs[w + 1].id@ != id);
        }
        lemma_find_message_at(msgs.drop_first(), id, i - 1);
    }
}

/// With no record carrying `id`, there is no first position.
pub proof fn lemma_find_message_none(msgs: Seq<ControllerMessage>, id: Seq<char>)
    requires
        forall|w: int| 0 <= w < msgs.len() ==> (#[trigger] msgs[w]).id@ != id,
    ensures
        spec_find_message_idx(msgs, id) is None,
    decreases msgs.len(),
{
    if msgs.len() > 0 {
        assert forall|w: int|
            0 <= w < msgs.drop_first().len() implies (#[trigger] msgs.drop_first()[w]).id@
            != id by {
            assert(msgs[w + 1].id@ != id);
        }
        lemma_find_message_none(msgs.drop_first(), id);
    }
}

/// A position whose record carries `id`, with none earlier, is the first.
pub proof fn lemma_find_local_at(msgs: Seq<ControllerLocalMessage>, id: Seq<char>, i: int)
    requires
        0 <= i < msgs.len(),
        msgs[i].id@ == id,
        forall|w: int| 0 <= w < i ==> (#[trigger] msgs[w]).id@ != id,
    ensures
        spec_find_local_idx(msgs, id) == Some(i),
    decreases i,
{
    if i > 0 {
        assert(msgs[0].id@ != id);
        assert(msgs.drop_first()[i - 1].id@ == id);
        assert forall|w: int| 0 <= w < i - 1 implies (#[trigger] msgs.drop_first()[w]).id@
            != id by {
            assert(msgs[w + 1].id@ != id);
        }
        lemma_find_local_at(msgs.drop_first(), id, i - 1);
    }
}

/// With no record carrying `id`, there is no first position.
pub proof fn lemma_find_local_none(msgs: Seq<ControllerLocalMessage>, id: Seq<char>)
    requires
        forall|w: int| 0 <= w < msgs.len() ==> (#[trigger] msgs[w]).id@ != id,
    ensures
        spec_find_local_idx(msgs, id) is None,
    decreases msgs.len(),
{
    if msgs.len() > 0 {
        assert forall|w: int|
            0 <= w < msgs.drop_first().len() implies (#[trigger] msgs.drop_first()[w]).id@
            != id by {
            assert(msgs[w + 1].id@ != id);
        }
        lemma_find_local_none(msgs.drop_first(), id);
    }
}

/// A position whose record carries `id`, with none earlier, is the first.
pub proof fn lemma_find_timer_at(timers: Seq<ControllerTimer>, id: Seq<char>, i: int)
    requires
        0 <= i < timers.len(),
        timers[i].id@ == id,
        forall|w: int| 0 <= w < i ==> (#[trigger] timers[w]).id@ != id,
    ensures
        spec_find_timer_idx(timers, id) == Some(i),
    decreases i,
{
    if i > 0 {
        assert(timers[0].id@ != id);
        assert(timers.drop_first()[i - 1].id@ == id);
        assert forall|w: int| 0 <= w < i - 1 implies (#[trigger] timers.drop_first()[w]).id@
            != id by {
            assert(timers[w + 1].id@ != id);
        }
        lemma_find_timer_at(timers.drop_first(), id, i - 1);
    }
}

/// With no record carrying `id`, there is no first position.
pub proof fn lemma_find_timer_none(timers: Seq<ControllerTimer>, id: Seq<char>)
    requires
        forall|w: int| 0 <= w < timers.len() ==> (#[trigger] timers[w]).id@ != id,
    ensures
        spec_find_timer_idx(timers, id) is None,
    decreases timers.len(),
{
    if timers.len() > 0 {
        assert forall|w: int|
            0 <= w < timers.drop_first().len() implies (#[trigger] timers.drop_first()[w]).id@
            != id by {
            assert(timers[w + 1].id@ != id);
        }
        lemma_find_timer_none(timers.drop_first(), id);
    }
}

/// What reading one log entry does to the controller. `n0` counts the nodes
/// started so far; the `n0`-th entry of `np` is the position the next node
/// takes. An entry that refers to an unknown message or timer id changes
/// nothing.
pub open spec fn spec_parse_step(
    pre: EventController,
    e: LogEntry,
    np: Seq<Point>,
    n0: int,
    post: EventController,
) -> bool {
    match e {
        LogEntry::NodeStarted { time, node, node_id } => {
            &&& post == (EventController { commands: post.commands, ..pre })
            &&& post.commands@ == pre.commands@.push(
                (
                    time,
                    ControllerStateCommand::NodeStarted(
                        ControllerNode { name: node, id: node_id, pos: np[n0] },
                    ),
                ),
            )
        },
        LogEntry::LocalMessageSent { time, msg_id, node, proc, msg_tip, msg_data } => {
            &&& post == (EventController {
                local_messages: post.local_messages,
                commands: post.commands,
                ..pre
            })
            &&& post.commands@ == pre.commands@.push(
                (time, ControllerStateCommand::LocalMessageEmerged(msg_id)),
            )
            &&& post.local_messages@.len() == pre.local_messages@.len() + 1
            &&& post.local_messages@.take(pre.local_messages@.len() as int)
                == pre.local_messages@
            &&& ({
                let m = post.local_messages@.last();
                m.id@ == msg_id@ && m.node@ == node@ && m.proc@ == proc@ && m.tip@ == msg_tip@
                    && m.time == time && m.msg_type == LocalMessageType::Sent && m.data@ == (
                if json_parses(msg_data@) {
                    json_pretty(msg_data@)
                } else {
                    msg_data@
                })
            })
        },
        LogEntry::LocalMessageReceived { time, msg_id, node, proc, msg_tip, msg_data } => {
            &&& post == (EventController {
                local_messages: post.local_messages,
                commands: post.commands,
                ..pre
            })
            &&& post.commands@ == pre.commands@.push(
                (time, ControllerStateCommand::LocalMessageEmerged(msg_id)),
            )
            &&& post.local_messages@ == pre.local_messages@.push(
                ControllerLocalMessage {
                    id: msg_id,
                    node,
                    proc,
                    tip: msg_tip,
                    data: msg_data,
                    time,
                    msg_type: LocalMessageType::Received,
                },
            )
        },
        LogEntry::MessageSent {
            time,
            msg_id,
            src_node,
            src_proc,
            dest_node,
            dest_proc,
            msg_tip,
            msg_data,
        } => {
            &&& post == (EventController {
                messages: post.messages,
                commands: post.commands,
                ..pre
            })
            &&& post.commands@ == pre.commands@.push(
                (time, ControllerStateCommand::MessageSent(msg_id)),
            )
            &&& post.messages@ == pre.messages@.push(
                ControllerMessage {
                    id: msg_id,
                    src_node,
                    src_proc,
                    dest_node,
                    dest_proc,
                    tip: msg_tip,
                    data: msg_data,
                    time_sent: time,
                    time_received: -1i64,
                    copies_received: 0u64,
                },
            )
        },
        LogEntry::MessageReceived { time, msg_id } => {
            if exists|j: int|
                0 <= j < pre.messages@.len() && (#[trigger] pre.messages@[j]).id@ == msg_id@ {
                exists|j: int|
                    {
                        &&& 0 <= j < pre.messages@.len()
                        &&& (#[trigger] pre.messages@[j]).id@ == msg_id@
                        &&& forall|w: int| 0 <= w < j ==> (#[trigger] pre.messages@[w]).id@ != msg_id@
                        &&& if pre.messages@[j].copies_received < u64::MAX {
                            post == (EventController { messages: post.messages, ..pre })
                                && post.messages@ == pre.messages@.update(
                                j,
                                (ControllerMessage {
                                    time_received: time as i64,
                                    copies_received: (pre.messages@[j].copies_received + 1) as u64,
                                    ..pre.messages@[j]
                                }),
                            )
                        } else {
                            post == pre
                        }
                    }
            } else {
                post == pre
            }
        },
        LogEntry::NodeConnected { time, node } => {
            &&& post == (EventController { commands: post.commands, ..pre })
            &&& post.commands@ == pre.commands@.push(
                (time, ControllerStateCommand::NodeConnected(node)),
            )
        },
        LogEntry::NodeDisconnected { time, node } => {
            &&& post == (EventController { commands: post.commands, ..pre })
            &&& post.commands@ == pre.commands@.push(
                (time, ControllerStateCommand::NodeDisconnected(node)),
            )
        },
        LogEntry::TimerSet { time, timer_id, timer_name, node, proc, delay } => {
            &&& post == (EventController {
                timers: post.timers,
                commands: post.commands,
                ..pre
            })
            &&& post.commands@ == pre.commands@.push(
                (time, ControllerStateCommand::TimerSet(timer_id)),
            )
            &&& post.timers@ == pre.timers@.push(
                ControllerTimer {
                    id: timer_id,
                    name: timer_name,
                    node,
                    proc,
                    time_set: time,
                    delay,
                    time_removed: -1i64,
                },
            )
        },
        LogEntry::TimerFired { time, timer_id } => {
            if exists|j: int|
                0 <= j < pre.timers@.len() && (#[trigger] pre.timers@[j]).id@ == timer_id@ {
                exists|j: int|
                    {
                        &&& 0 <= j < pre.timers@.len()
                        &&& (#[trigger] pre.timers@[j]).id@ == timer_id@
                        &&& forall|w: int| 0 <= w < j ==> (#[trigger] pre.timers@[w]).id@ != timer_id@
                        &&& post == (EventController { timers: post.timers, ..pre })
                        &&& post.timers@ == pre.timers@.update(
                            j,
                            (ControllerTimer { time_removed: time as i64, ..pre.timers@[j] }),
                        )
                    }
            } else {
                post == pre
            }
        },
        LogEntry::TimerCancelled { time, timer_id } => {
            if exists|j: int|
                0 <= j < pre.timers@.len() && (#[trigger] pre.timers@[j]).id@ == timer_id@ {
                exists|j: int|
                    {
                        &&& 0 <= j < pre.timers@.len()
                        &&& (#[trigger] pre.timers@[j]).id@ == timer_id@
                        &&& forall|w: int| 0 <= w < j ==> (#[trigger] pre.timers@[w]).id@ != timer_id@
                        &&& post == (EventController { timers: post.timers, ..pre })
                        &&& post.timers@ == pre.timers@.update(
                            j,
                            (ControllerTimer { time_removed: time as i64, ..pre.timers@[j] }),
                        )
                    }
            } else {
                post == pre
            }
        },
        LogEntry::LinkDisabled { time, from_node, from_proc, to_node, to_proc } => {
            &&& post == (EventController { commands: post.commands, ..pre })
            &&& post.commands@ == pre.commands@.push(
                (time, ControllerStateCommand::LinkDisabled((from_node, to_node))),
            )
        },
        LogEntry::LinkEnabled { time, from_node, from_proc, to_node, to_proc } => {
            &&& post == (EventController { commands: post.commands, ..pre })
            &&& post.commands@ == pre.commands@.push(
                (time, ControllerStateCommand::LinkEnabled((from_node, to_node))),
            )
        },
        LogEntry::DropIncoming { time, node } => {
            &&& post == (EventController { commands: post.commands, ..pre })
            &&& post.commands@ == pre.commands@.push(
                (time, ControllerStateCommand::DropIncoming(node)),
            )
        },
        LogEntry::PassIncoming { time, node } => {
            &&& post == (EventController { commands: post.commands, ..pre })
            &&& post.commands@ == pre.commands@.push(
                (time, ControllerStateCommand::PassIncoming(node)),
            )
        },
        LogEntry::DropOutgoing { time, node } => {
            &&& post == (EventController { commands: post.commands, ..pre })
            &&& post.commands@ == pre.commands@.push(
                (time, ControllerStateCommand::DropOutgoing(node)),
            )
        },
        LogEntry::PassOutgoing { time, node } => {
            &&& post == (EventController { commands: post.commands, ..pre })
            &&& post.commands@ == pre.commands@.push(
                (time, ControllerStateCommand::PassOutgoing(node)),
            )
        },
        LogEntry::MakePartition { time, group1_nodes, group1_procs, group2_nodes, group2_procs } => {
            &&& post == (EventController { commands: post.commands, ..pre })
            &&& post.commands@.len() == pre.commands@.len() + 1
            &&& post.commands@.take(pre.commands@.len() as int) == pre.commands@
            &&& ({
                let c = post.commands@.last();
                c.0 == time && (c.1 matches ControllerStateCommand::NetworkPartition(p) && p.0@
                    == group1_nodes@ && p.1@ == group2_nodes@)
            })
        },
        LogEntry::ResetNetwork { time } => {
            &&& post == (EventController { commands: post.commands, ..pre })
            &&& post.commands@ == pre.commands@.push(
                (time, ControllerStateCommand::NetworkReset()),
            )
        },
        LogEntry::ProcessStateUpdated { time, node, proc, state } => {
            &&& post == (EventController { commands: post.commands, ..pre })
            &&& post.commands@.len() == pre.commands@.len() + 1
            &&& post.commands@.take(pre.commands@.len() as int) == pre.commands@
            &&& ({
                let c = post.commands@.last();
                c.0 == time && (c.1 matches ControllerStateCommand::NodeStateUpdated(p) && p.0@
                    == node@ && p.1@ == spec_strip_backslashes(
                    if json_parses(state@) {
                        json_pretty(state@)
                    } else {
                        state@
                    },
                ))
            })
        },
        LogEntry::ProcessStarted { .. } => post == pre,
        LogEntry::MessageDropped { .. } => post == pre,
        LogEntry::NodeCrashed { .. } => post == pre,
        LogEntry::NodeRecovered { .. } => post == pre,
    }
}

/// The controller `post` is `pre` after reading the log entries in order,
/// with `n0` nodes already started.
pub open spec fn spec_parsed(
    entries: Seq<LogEntry>,
    np: Seq<Point>,
    n0: int,
    pre: EventController,
    post: EventController,
) -> bool
    decreases entries.len(),
{
    if entries.len() == 0 {
        post == pre
    } else {
        let n1 = n0 + (match entries[0] {
            LogEntry::NodeStarted { .. } => 1int,
            _ => 0int,
        });
        exists|mid: EventController|
            #[trigger] spec_parse_step(pre, entries[0], np, n0, mid) && spec_parsed(
                entries.drop_first(),
                np,
                n1,
                mid,
                post,
            )
    }
}

/// `s` with `x` inserted after every command whose time is at or before
/// `x`'s: where a stable insertion sort places it.
pub open spec fn spec_insert_cmd(
    s: Seq<(u64, ControllerStateCommand)>,
    x: (u64, ControllerStateCommand),
) -> Seq<(u64, ControllerStateCommand)>
    decreases s.len(),
{
    if s.len() == 0 {
        seq![x]
    } else if x.0 < s.last().0 {
        spec_insert_cmd(s.drop_last(), x).push(s.last())
    } else {
        s.push(x)
    }
}

/// The stable sort of `s` by time: each command inserted in turn.
pub open spec fn spec_sort_cmds(s: Seq<(u64, ControllerStateCommand)>) -> Seq<
    (u64, ControllerStateCommand),
>
    decreases s.len(),
{
    if s.len() == 0 {
        Seq::<(u64, ControllerStateCommand)>::empty()
    } else {
        spec_insert_cmd(spec_sort_cmds(s.drop_last()), s.last())
    }
}

/// Commands in never-decreasing time order.
pub open spec fn spec_cmds_sorted(s: Seq<(u64, ControllerStateCommand)>) -> bool {
    forall|a: int, b: int| 0 <= a < b < s.len() ==> (#[trigger] s[a]).0 <= (#[trigger] s[b]).0
}

/// Inserting into a sorted command list keeps it sorted.
pub proof fn lemma_insert_cmd_sorted(
    s: Seq<(u64, ControllerStateCommand)>,
    x: (u64, ControllerStateCommand),
)
    requires
        spec_cmds_sorted(s),
    ensures
        spec_cmds_sorted(spec_insert_cmd(s, x)),
        spec_insert_cmd(s, x).len() == s.len() + 1,
    decreases s.len(),
{
    if s.len() == 0 {
    } else if x.0 < s.last().0 {
        assert(spec_cmds_sorted(s.drop_last()));
        lemma_insert_cmd_sorted(s.drop_last(), x);
        let r = spec_insert_cmd(s.drop_last(), x).push(s.last());
        assert forall|a: int, b: int|
            0 <= a < b < r.len() implies (#[trigger] r[a]).0 <= (#[trigger] r[b]).0 by {
            if b == r.len() - 1 {
                lemma_insert_cmd_last_bound(s.drop_last(), x);
            }
        }
    }
}

/// Every element of an insertion result is one of the inserted list's
/// elements or the inserted one; in particular each is bounded by the largest
/// time among them.
pub proof fn lemma_insert_cmd_last_bound(
    s: Seq<(u64, ControllerStateCommand)>,
    x: (u64, ControllerStateCommand),
)
    ensures
        forall|a: int|
            0 <= a < spec_insert_cmd(s, x).len() ==> (#[trigger] spec_insert_cmd(s, x)[a]).0 == x.0
                || exists|w: int| 0 <= w < s.len() && (#[trigger] s[w]).0 == spec_insert_cmd(
                s,
                x,
            )[a].0,
    decreases s.len(),
{
    if s.len() == 0 {
    } else if x.0 < s.last().0 {
        lemma_insert_cmd_last_bound(s.drop_last(), x);
        let r = spec_insert_cmd(s.drop_last(), x).push(s.last());
        assert forall|a: int|
            0 <= a < r.len() implies (#[trigger] r[a]).0 == x.0 || exists|w: int|
            0 <= w < s.len() && (#[trigger] s[w]).0 == r[a].0 by {
            if a < r.len() - 1 {
                if r[a].0 != x.0 {
                    let w = choose|w: int|
                        0 <= w < s.drop_last().len() && (#[trigger] s.drop_last()[w]).0 == r[a].0;
                    assert(s[w].0 == r[a].0);
                }
            } else {
                assert(s[s.len() - 1].0 == r[a].0);
            }
        }
    } else {
        let r = s.push(x);
        assert forall|a: int|
            0 <= a < r.len() implies (#[trigger] r[a]).0 == x.0 || exists|w: int|
            0 <= w < s.len() && (#[trigger] s[w]).0 == r[a].0 by {
            if a < r.len() - 1 {
                assert(s[a].0 == r[a].0);
            }
        }
    }
}

/// Inserting a command neither loses nor invents commands: the result holds
/// exactly the old ones and the new one.
pub proof fn lemma_insert_cmd_multiset(
    s: Seq<(u64, ControllerStateCommand)>,
    x: (u64, ControllerStateCommand),
)
    ensures
        spec_insert_cmd(s, x).to_multiset() == s.to_multiset().insert(x),
    decreases s.len(),
{
    broadcast use vstd::seq_lib::group_to_multiset_ensures;

    if s.len() == 0 {
        assert(seq![x] =~= Seq::<(u64, ControllerStateCommand)>::empty().push(x));
        assert(seq![x].to_multiset() =~= s.to_multiset().insert(x));
    } else if x.0 < s.last().0 {
        lemma_insert_cmd_multiset(s.drop_last(), x);
        assert(s =~= s.drop_last().push(s.last()));
        assert(spec_insert_cmd(s.drop_last(), x).push(s.last()).to_multiset() =~= spec_insert_cmd(
            s.drop_last(),
            x,
        ).to_multiset().insert(s.last()));
        assert(s.drop_last().to_multiset().insert(x).insert(s.last())
            =~= s.drop_last().to_multiset().insert(s.last()).insert(x));
        assert(spec_insert_cmd(s, x).to_multiset() =~= s.to_multiset().insert(x));
    } else {
        assert(s.push(x).to_multiset() =~= s.to_multiset().insert(x));
    }
}

/// The stable sort of a command list holds exactly the commands of the list:
/// none is lost, none is invented, duplicates keep their number.
pub proof fn lemma_sort_cmds_multiset(s: Seq<(u64, ControllerStateCommand)>)
    ensures
        spec_sort_cmds(s).to_multiset() == s.to_multiset(),
    decreases s.len(),
{
    broadcast use vstd::seq_lib::group_to_multiset_ensures;

    if s.len() > 0 {
        lemma_sort_cmds_multiset(s.drop_last());
        lemma_insert_cmd_multiset(spec_sort_cmds(s.drop_last()), s.last());
        assert(s =~= s.drop_last().push(s.last()));
        assert(s.drop_last().push(s.last()).to_multiset() =~= s.drop_last().to_multiset().insert(
            s.last(),
        ));
    }
}

/// What dispatching one command does to the replay state: the matching
/// `process_*` effect when its conditions hold, and no change otherwise. A
/// command is skipped when its time or position lies outside the working
/// range, a referent (node, recorded message, local message or timer) is
/// missing, or an id that must be fresh is already taken.
pub open spec fn spec_dispatch_step(
    ec: EventController,
    t: u64,
    c: ControllerStateCommand,
    pre: State,
    post: State,
) -> bool {
    if t > TIME_LIMIT {
        post == pre
    } else {
        match c {
            ControllerStateCommand::NodeStarted(n) => {
                if n.pos.in_range() && !pre.has_node(n.name@) {
                    spec_node_started_applied(pre, post, t, n.name, n.id, n.pos)
                } else {
                    post == pre
                }
            },
            ControllerStateCommand::MessageSent(id) => {
                match spec_find_message_idx(ec.messages@, id@) {
                    None => post == pre,
                    Some(j) => {
                        let m = ec.messages@[j];
                        let duration: int = if m.time_received >= 0 && m.time_received as int
                            >= m.time_sent as int {
                            m.time_received - m.time_sent
                        } else {
                            0
                        };
                        let ok = t + duration <= TIME_LIMIT && pre.has_node(m.src_node@)
                            && pre.has_node(m.dest_node@) && !pre.has_message(m.id@);
                        if ok {
                            spec_message_sent_applied(
                                pre,
                                post,
                                m.id,
                                t,
                                m.src_node@,
                                m.dest_node@,
                                m.tip,
                                if json_parses(m.data@) {
                                    json_pretty(m.data@)
                                } else {
                                    m.data@
                                },
                                duration as u64,
                                m.copies_received,
                            )
                        } else {
                            post == pre
                        }
                    },
                }
            },
            ControllerStateCommand::LocalMessageEmerged(id) => {
                match spec_find_local_idx(ec.local_messages@, id@) {
                    None => post == pre,
                    Some(j) => {
                        let m = ec.local_messages@[j];
                        let ok = m.time <= TIME_LIMIT && pre.has_node(m.node@)
                            && !pre.has_local_message(m.id@);
                        if ok {
                            spec_local_message_applied(
                                pre,
                                post,
                                m.time,
                                m.id,
                                m.node,
                                m.data,
                                m.msg_type == LocalMessageType::Sent,
                            )
                        } else {
                            post == pre
                        }
                    },
                }
            },
            ControllerStateCommand::NodeConnected(n) => {
                if pre.has_node(n@) {
                    spec_command_queued(pre, post, t, StateEvent::NodeConnected(n))
                } else {
                    post == pre
                }
            },
            ControllerStateCommand::NodeDisconnected(n) => {
                if pre.has_node(n@) {
                    spec_command_queued(pre, post, t, StateEvent::NodeDisconnected(n))
                } else {
                    post == pre
                }
            },
            ControllerStateCommand::TimerSet(id) => {
                match spec_find_timer_idx(ec.timers@, id@) {
                    None => post == pre,
                    Some(j) => {
                        let m = ec.timers@[j];
                        if m.time_set <= TIME_LIMIT && pre.has_node(m.node@) {
                            spec_command_queued(
                                pre,
                                post,
                                m.time_set,
                                StateEvent::TimerSet(
                                    StateTimer {
                                        id: m.id,
                                        name: m.name,
                                        time_set: m.time_set,
                                        node: m.node,
                                        delay: m.delay,
                                        time_removed: m.time_removed,
                                        k: -1i32,
                                    },
                                ),
                            )
                        } else {
                            post == pre
                        }
                    },
                }
            },
            ControllerStateCommand::LinkDisabled(l) => {
                spec_command_queued(pre, post, t, StateEvent::LinkDisabled(l))
            },
            ControllerStateCommand::LinkEnabled(l) => {
                spec_command_queued(pre, post, t, StateEvent::LinkEnabled(l))
            },
            ControllerStateCommand::DropIncoming(n) => {
                spec_command_queued(pre, post, t, StateEvent::DropIncoming(n))
            },
            ControllerStateCommand::PassIncoming(n) => {
                spec_command_queued(pre, post, t, StateEvent::PassIncoming(n))
            },
            ControllerStateCommand::DropOutgoing(n) => {
                spec_command_queued(pre, post, t, StateEvent::DropOutgoing(n))
            },
            ControllerStateCommand::PassOutgoing(n) => {
                spec_command_queued(pre, post, t, StateEvent::PassOutgoing(n))
            },
            ControllerStateCommand::NetworkPartition(g) => {
                exists|h1: Vec<String>, h2: Vec<String>|
                    h1@ == g.0@ && h2@ == g.1@ && #[trigger] spec_command_queued(
                        pre,
                        post,
                        t,
                        StateEvent::NetworkPartition((h1, h2)),
                    )
            },
            ControllerStateCommand::NetworkReset() => {
                spec_command_queued(pre, post, t, StateEvent::NetworkReset())
            },
            ControllerStateCommand::NodeStateUpdated(q) => {
                if pre.has_node(q.0@) {
                    spec_command_queued(pre, post, t, StateEvent::NodeStateUpdated(q))
                } else {
                    post == pre
                }
            },
        }
    }
}

/// The replay state `post` is `pre` after dispatching the commands in order;
/// see `spec_dispatch_step`.
pub open spec fn spec_dispatched(
    cmds: Seq<(u64, ControllerStateCommand)>,
    ec: EventController,
    pre: State,
    post: State,
) -> bool
    decreases cmds.len(),
{
    if cmds.len() == 0 {
        post == pre
    } else {
        exists|mid: State|
            spec_dispatched(cmds.drop_last(), ec, pre, mid) && #[trigger] spec_dispatch_step(
                ec,
                cmds.last().0,
                cmds.last().1,
                mid,
                post,
            )
    }
}

/// Inserts a command where a stable sort by time places it.
fn insert_cmd(v: &mut Vec<(u64, ControllerStateCommand)>, x: (u64, ControllerStateCommand))
    ensures
        final(v)@ == spec_insert_cmd(old(v)@, x),
    decreases old(v)@.len(),
{
    if v.len() == 0 {
        v.push(x);
        proof {
            assert(v@ =~= seq![x]);
        }
        return ;
    }
    let last_time = v[v.len() - 1].0;
    if x.0 < last_time {
        let last = v.pop().unwrap();
        proof {
            assert(v@ =~= old(v)@.drop_last());
            assert(last == old(v)@.last());
        }
        insert_cmd(v, x);
        v.push(last);
    } else {
        v.push(x);
    }
}

impl EventController {
    pub fn new() -> (r: EventController)
        ensures
            r.local_messages@.len() == 0,
            r.messages@.len() == 0,
            r.timers@.len() == 0,
            r.commands@.len() == 0,
    {
        EventController {
            local_messages: Vec::new(),
            messages: Vec::new(),
            timers: Vec::new(),
            commands: Vec::new(),
        }
    }

    /// The index of the first recorded message of this id.
    fn find_message(&self, id: &String) -> (r: Option<usize>)
        ensures
            match r {
                Some(i) => i < self.messages@.len() && self.messages@[i as int].id@ == id@
                    && forall|w: int|
                    0 <= w < i ==> (#[trigger] self.messages@[w]).id@ != id@,
                None => forall|w: int|
                    0 <= w < self.messages@.len() ==> (#[trigger] self.messages@[w]).id@ != id@,
            },
    {
        let mut i: usize = 0;
        while i < self.messages.len()
            invariant
                i <= self.messages@.len(),
                forall|w: int| 0 <= w < i ==> (#[trigger] self.messages@[w]).id@ != id@,
            decreases self.messages@.len() - i,
        {
            if self.messages[i].id.eq(id) {
                return Some(i);
            }
            i = i + 1;
        }
        None
    }

    /// The index of the first recorded timer of this id.
    fn find_timer(&self, id: &String) -> (r: Option<usize>)
        ensures
            match r {
                Some(i) => i < self.timers@.len() && self.timers@[i as int].id@ == id@ && forall|
                    w: int,
                |
                    0 <= w < i ==> (#[trigger] self.timers@[w]).id@ != id@,
                None => forall|w: int|
                    0 <= w < self.timers@.len() ==> (#[trigger] self.timers@[w]).id@ != id@,
            },
    {
        let mut i: usize = 0;
        while i < self.timers.len()
            invariant
                i <= self.timers@.len(),
                forall|w: int| 0 <= w < i ==> (#[trigger] self.timers@[w]).id@ != id@,
            decreases self.timers@.len() - i,
        {
            if self.timers[i].id.eq(id) {
                return Some(i);
            }
            i = i + 1;
        }
        None
    }

    /// The index of the first recorded local message of this id.
    fn find_local_message(&self, id: &String) -> (r: Option<usize>)
        ensures
            match r {
                Some(i) => i < self.local_messages@.len() && self.local_messages@[i as int].id@
                    == id@ && forall|w: int|
                    0 <= w < i ==> (#[trigger] self.local_messages@[w]).id@ != id@,
                None => forall|w: int|
                    0 <= w < self.local_messages@.len() ==> (
                    #[trigger] self.local_messages@[w]).id@ != id@,
            },
    {
        let mut i: usize = 0;
        while i < self.local_messages.len()
            invariant
                i <= self.local_messages@.len(),
                forall|w: int| 0 <= w < i ==> (#[trigger] self.local_messages@[w]).id@ != id@,
            decreases self.local_messages@.len() - i,
        {
            if self.local_messages[i].id.eq(id) {
                return Some(i);
            }
            i = i + 1;
        }
        None
    }

    /// Sorts the commands by time, stably, and feeds them to the replay
    /// state in order, each through its `process_*` call. A command whose
    /// referents are missing, out of the working time range, or already
    /// present where they must be fresh is skipped rather than dispatched.
    /// Sorts the commands by time, stably, and feeds them to the replay
    /// state in order, each through its `process_*` call; the resulting state
    /// is exactly the fold of `spec_dispatch_step` over the sorted commands.
    /// A command whose referents are missing, out of the working range, or
    /// already present where they must be fresh is skipped rather than
    /// dispatched.
    pub fn send_commands(&mut self, state: &mut State)
        requires
            old(state).wf(),
        ensures
            final(state).wf(),
            final(self).commands@ == spec_sort_cmds(old(self).commands@),
            spec_cmds_sorted(final(self).commands@),
            final(self).commands@.to_multiset() == old(self).commands@.to_multiset(),
            *final(self) == (EventController { commands: final(self).commands, ..*old(self) }),
            spec_dispatched(
                spec_sort_cmds(old(self).commands@),
                *final(self),
                *old(state),
                *final(state),
            ),
    {
        let ghost orig = self.commands@;
        proof {
            lemma_sort_cmds_multiset(orig);
        }
        let mut sorted: Vec<(u64, ControllerStateCommand)> = Vec::new();
        proof {
            assert(orig.take(0) =~= Seq::<(u64, ControllerStateCommand)>::empty());
        }
        while self.commands.len() > 0
            invariant
                self.commands@.len() <= orig.len(),
                self.commands@ == orig.skip(orig.len() - self.commands@.len()),
                sorted@ == spec_sort_cmds(orig.take(orig.len() - self.commands@.len())),
                spec_cmds_sorted(sorted@),
                *self == (EventController { commands: self.commands, ..*old(self) }),
            decreases self.commands@.len(),
        {
            let ghost k = orig.len() - self.commands@.len();
            let x = self.commands.remove(0);
            proof {
                assert(x == orig[k]);
                assert(self.commands@ =~= orig.skip(k + 1));
                assert(orig.take(k + 1).drop_last() =~= orig.take(k));
                assert(orig.take(k + 1).last() == orig[k]);
                lemma_insert_cmd_sorted(sorted@, x);
            }
            insert_cmd(&mut sorted, x);
        }
        proof {
            assert(orig.take(orig.len() as int) =~= orig);
        }
        self.commands = sorted;
        let ghost st0 = *state;
        let mut i: usize = 0;
        proof {
            assert(self.commands@.take(0) =~= Seq::<(u64, ControllerStateCommand)>::empty());
        }
        while i < self.commands.len()
            invariant
                state.wf(),
                i <= self.commands@.len(),
                self.commands@ == spec_sort_cmds(orig),
                spec_cmds_sorted(self.commands@),
                *self == (EventController { commands: self.commands, ..*old(self) }),
                st0 == *old(state),
                st0.wf(),
                spec_dispatched(self.commands@.take(i as int), *self, st0, *state),
            decreases self.commands@.len() - i,
        {
            let ghost prev = *state;
            let t = self.commands[i].0;
            if t <= TIME_LIMIT {
                match &self.commands[i].1 {
                    ControllerStateCommand::NodeStarted(n) => {
                        let in_range = -crate::utilities::COORD_LIMIT <= n.pos.x && n.pos.x
                            <= crate::utilities::COORD_LIMIT && -crate::utilities::COORD_LIMIT
                            <= n.pos.y && n.pos.y <= crate::utilities::COORD_LIMIT;
                        if in_range && state.find_node(&n.name).is_none() {
                            state.process_node_started(t, n.name.clone(), n.id, n.pos);
                            proof {
                                assert(spec_dispatch_step(
                                    *self,
                                    t,
                                    self.commands@[i as int].1,
                                    prev,
                                    *state,
                                ));
                            }
                        } else {
                            proof {
                                assert(spec_dispatch_step(
                                    *self,
                                    t,
                                    self.commands@[i as int].1,
                                    prev,
                                    *state,
                                ));
                            }
                        }
                    },
                    ControllerStateCommand::MessageSent(id) => {
                        match self.find_message(id) {
                            Some(mi) => {
                                let m = &self.messages[mi];
                                let duration: u64 = if m.time_received >= 0 && m.time_received
                                    as u64 >= m.time_sent {
                                    m.time_received as u64 - m.time_sent
                                } else {
                                    0
                                };
                                proof {
                                    lemma_find_message_at(self.messages@, id@, mi as int);
                                }
                                let src_ok = state.find_node(&m.src_node).is_some();
                                let dest_ok = state.find_node(&m.dest_node).is_some();
                                let fresh = state.find_message(&m.id).is_none();
                                proof {
                                    let gm = self.messages@[mi as int];
                                    assert(src_ok == prev.has_node(gm.src_node@));
                                    assert(dest_ok == prev.has_node(gm.dest_node@));
                                    assert(fresh == !prev.has_message(gm.id@));
                                    assert(duration as int == (if gm.time_received >= 0
                                        && gm.time_received as int >= gm.time_sent as int {
                                        gm.time_received - gm.time_sent as int
                                    } else {
                                        0int
                                    }));
                                }
                                if duration <= TIME_LIMIT - t && src_ok && dest_ok && fresh {
                                    let data = match prettify_json_string(m.data.as_str()) {
                                        Some(p) => p,
                                        None => m.data.clone(),
                                    };
                                    let ghost gd = data;
                                    proof {
                                        let gm = self.messages@[mi as int];
                                        assert(gd@ == (if json_parses(gm.data@) {
                                            json_pretty(gm.data@)
                                        } else {
                                            gm.data@
                                        }));
                                    }
                                    state.process_message_sent(
                                        m.id.clone(),
                                        t,
                                        &m.src_node,
                                        &m.dest_node,
                                        m.tip.clone(),
                                        data,
                                        duration,
                                        m.copies_received,
                                    );
                                    proof {
                                        let gm = self.messages@[mi as int];
                                        let gdur: int = if gm.time_received >= 0
                                            && gm.time_received as int >= gm.time_sent as int {
                                            gm.time_received - gm.time_sent as int
                                        } else {
                                            0int
                                        };
                                        assert(gdur == duration as int);
                                        assert(spec_message_sent_applied(
                                            prev,
                                            *state,
                                            gm.id,
                                            t,
                                            gm.src_node@,
                                            gm.dest_node@,
                                            gm.tip,
                                            gd@,
                                            gdur as u64,
                                            gm.copies_received,
                                        ));
                                        assert(self.commands@[i as int].1 is MessageSent);
                                        assert(self.commands@[i as int].1->MessageSent_0 == *id);
                                        assert(spec_find_message_idx(self.messages@, id@)
                                            == Some(mi as int));
                                        assert(spec_dispatch_step(
                                            *self,
                                            t,
                                            self.commands@[i as int].1,
                                            prev,
                                            *state,
                                        ));
                                    }
                                } else {
                                    proof {
                                        assert(spec_dispatch_step(
                                            *self,
                                            t,
                                            self.commands@[i as int].1,
                                            prev,
                                            *state,
                                        ));
                                    }
                                }
                            },
                            None => {
                                proof {
                                    lemma_find_message_none(self.messages@, id@);
                                    assert(spec_dispatch_step(
                                        *self,
                                        t,
                                        self.commands@[i as int].1,
                                        prev,
                                        *state,
                                    ));
                                }
                            },
                        }
                    },
                    ControllerStateCommand::LocalMessageEmerged(id) => {
                        match self.find_local_message(id) {
                            Some(li) => {
                                proof {
                                    lemma_find_local_at(self.local_messages@, id@, li as int);
                                }
                                let m = &self.local_messages[li];
                                let is_sent = m.msg_type == LocalMessageType::Sent;
                                if m.time <= TIME_LIMIT && state.find_node(&m.node).is_some()
                                    && state.find_local_message(&m.id).is_none() {
                                    state.process_local_message(
                                        m.time,
                                        m.id.clone(),
                                        m.node.clone(),
                                        m.data.clone(),
                                        is_sent,
                                    );
                                    proof {
                                        assert(self.commands@[i as int].1 is LocalMessageEmerged);
                                        assert(self.commands@[i as int].1->LocalMessageEmerged_0
                                            == *id);
                                        assert(spec_find_local_idx(self.local_messages@, id@)
                                            == Some(li as int));
                                        assert(spec_dispatch_step(
                                            *self,
                                            t,
                                            self.commands@[i as int].1,
                                            prev,
                                            *state,
                                        ));
                                    }
                                } else {
                                    proof {
                                        assert(spec_dispatch_step(
                                            *self,
                                            t,
                                            self.commands@[i as int].1,
                                            prev,
                                            *state,
                                        ));
                                    }
                                }
                            },
                            None => {
                                proof {
                                    lemma_find_local_none(self.local_messages@, id@);
                                    assert(spec_dispatch_step(
                                        *self,
                                        t,
                                        self.commands@[i as int].1,
                                        prev,
                                        *state,
                                    ));
                                }
                            },
                        }
                    },
                    ControllerStateCommand::NodeConnected(n) => {
                        if state.find_node(n).is_some() {
                            state.process_node_connected(t, n.clone());
                        }
                        proof {
                            assert(spec_dispatch_step(
                                *self,
                                t,
                                self.commands@[i as int].1,
                                prev,
                                *state,
                            ));
                        }
                    },
                    ControllerStateCommand::NodeDisconnected(n) => {
                        if state.find_node(n).is_some() {
                            state.process_node_disconnected(t, n.clone());
                        }
                        proof {
                            assert(spec_dispatch_step(
                                *self,
                                t,
                                self.commands@[i as int].1,
                                prev,
                                *state,
                            ));
                        }
                    },
                    ControllerStateCommand::TimerSet(id) => {
                        match self.find_timer(id) {
                            Some(ti) => {
                                proof {
                                    lemma_find_timer_at(self.timers@, id@, ti as int);
                                }
                                let m = &self.timers[ti];
                                if m.time_set <= TIME_LIMIT && state.find_node(&m.node).is_some() {
                                    state.process_timer_set(
                                        m.id.clone(),
                                        m.name.clone(),
                                        m.time_set,
                                        m.node.clone(),
                                        m.delay,
                                        m.time_removed,
                                    );
                                    proof {
                                        assert(self.commands@[i as int].1 is TimerSet);
                                        assert(self.commands@[i as int].1->TimerSet_0 == *id);
                                        assert(spec_find_timer_idx(self.timers@, id@)
                                            == Some(ti as int));
                                        assert(spec_dispatch_step(
                                            *self,
                                            t,
                                            self.commands@[i as int].1,
                                            prev,
                                            *state,
                                        ));
                                    }
                                } else {
                                    proof {
                                        assert(spec_dispatch_step(
                                            *self,
                                            t,
                                            self.commands@[i as int].1,
                                            prev,
                                            *state,
                                        ));
                                    }
                                }
                            },
                            None => {
                                proof {
                                    lemma_find_timer_none(self.timers@, id@);
                                    assert(spec_dispatch_step(
                                        *self,
                                        t,
                                        self.commands@[i as int].1,
                                        prev,
                                        *state,
                                    ));
                                }
                            },
                        }
                    },
                    ControllerStateCommand::LinkDisabled(l) => {
                        state.process_link_disabled(t, l.0.clone(), l.1.clone());
                        proof {
                            assert(spec_dispatch_step(
                                *self,
                                t,
                                self.commands@[i as int].1,
                                prev,
                                *state,
                            ));
                        }
                    },
                    ControllerStateCommand::LinkEnabled(l) => {
                        state.process_link_enabled(t, l.0.clone(), l.1.clone());
                        proof {
                            assert(spec_dispatch_step(
                                *self,
                                t,
                                self.commands@[i as int].1,
                                prev,
                                *state,
                            ));
                        }
                    },
                    ControllerStateCommand::DropIncoming(n) => {
                        state.process_drop_incoming(t, n.clone());
                        proof {
                            assert(spec_dispatch_step(
                                *self,
                                t,
                                self.commands@[i as int].1,
                                prev,
                                *state,
                            ));
                        }
                    },
                    ControllerStateCommand::PassIncoming(n) => {
                        state.process_pass_incoming(t, n.clone());
                        proof {
                            assert(spec_dispatch_step(
                                *self,
                                t,
                                self.commands@[i as int].1,
                                prev,
                                *state,
                            ));
                        }
                    },
                    ControllerStateCommand::DropOutgoing(n) => {
                        state.process_drop_outgoing(t, n.clone());
                        proof {
                            assert(spec_dispatch_step(
                                *self,
                                t,
                                self.commands@[i as int].1,
                                prev,
                                *state,
                            ));
                        }
                    },
                    ControllerStateCommand::PassOutgoing(n) => {
                        state.process_pass_outgoing(t, n.clone());
                        proof {
                            assert(spec_dispatch_step(
                                *self,
                                t,
                                self.commands@[i as int].1,
                                prev,
                                *state,
                            ));
                        }
                    },
                    ControllerStateCommand::NetworkPartition(g) => {
                        let c1 = crate::state::clone_names(&g.0);
                        let c2 = crate::state::clone_names(&g.1);
                        let ghost h1 = c1;
                        let ghost h2 = c2;
                        state.process_network_partition(t, c1, c2);
                        proof {
                            assert(spec_command_queued(
                                prev,
                                *state,
                                t,
                                StateEvent::NetworkPartition((h1, h2)),
                            ));
                            assert(spec_dispatch_step(
                                *self,
                                t,
                                self.commands@[i as int].1,
                                prev,
                                *state,
                            ));
                        }
                    },
                    ControllerStateCommand::NetworkReset() => {
                        state.process_network_reset(t);
                        proof {
                            assert(spec_dispatch_step(
                                *self,
                                t,
                                self.commands@[i as int].1,
                                prev,
                                *state,
                            ));
                        }
                    },
                    ControllerStateCommand::NodeStateUpdated(q) => {
                        if state.find_node(&q.0).is_some() {
                            state.process_state_updated(t, q.0.clone(), q.1.clone());
                        }
                        proof {
                            assert(spec_dispatch_step(
                                *self,
                                t,
                                self.commands@[i as int].1,
                                prev,
                                *state,
                            ));
                        }
                    },
                }
            } else {
                proof {
                    assert(spec_dispatch_step(
                        *self,
                        t,
                        self.commands@[i as int].1,
                        prev,
                        *state,
                    ));
                }
            }
            proof {
                assert(self.commands@.take(i as int + 1).drop_last() =~= self.commands@.take(
                    i as int));
                assert(self.commands@.take(i as int + 1).last() == self.commands@[i as int]);
                assert(spec_dispatched(self.commands@.take(i as int + 1), *self, st0, *state));
            }
            i = i + 1;
        }
        proof {
            assert(self.commands@.take(self.commands@.len() as int) =~= self.commands@);
        }
    }

    /// Reads the log entries from `from` on into the controller;
    /// see `spec_parse_step`. The `nseen`-th and later entries of
    /// `node_positions` place the nodes started from here on.
    fn parse_from(
        &mut self,
        entries: &Vec<LogEntry>,
        node_positions: &Vec<Point>,
        from: usize,
        nseen: usize,
    )
        requires
            from <= entries@.len(),
            nseen + spec_count_node_started(entries@.skip(from as int))
                <= node_positions@.len(),
        ensures
            spec_parsed(
                entries@.skip(from as int),
                node_positions@,
                nseen as int,
                *old(self),
                *final(self),
            ),
        decreases entries@.len() - from,
    {
        if from >= entries.len() {
            proof {
                assert(entries@.skip(from as int) =~= Seq::<LogEntry>::empty());
            }
            return ;
        }
        proof {
            assert(entries@.skip(from as int)[0] == entries@[from as int]);
            assert(entries@.skip(from as int).drop_first() =~= entries@.skip(from as int + 1));
            lemma_count_node_started_nonneg(entries@.skip(from as int + 1));
            vstd::std_specs::vec::axiom_spec_len(node_positions);
            assert(spec_count_node_started(entries@.skip(from as int)) == (match entries@[from as int] {
                LogEntry::NodeStarted { .. } => 1int,
                _ => 0int,
            }) + spec_count_node_started(entries@.skip(from as int + 1)));
        }
        let mut started: usize = 0;
        match &entries[from] {
            LogEntry::NodeStarted { time, node, node_id } => {
                let pos = node_positions[nseen];
                self.commands.push(
                    (
                        *time,
                        ControllerStateCommand::NodeStarted(
                            ControllerNode { name: node.clone(), id: *node_id, pos },
                        ),
                    ),
                );
                started = 1;
            },
            LogEntry::ProcessStarted { .. } => {},
            LogEntry::LocalMessageSent { time, msg_id, node, proc, msg_tip, msg_data } => {
                let data = match prettify_json_string(msg_data.as_str()) {
                    Some(p) => p,
                    None => msg_data.clone(),
                };
                self.local_messages.push(
                    ControllerLocalMessage {
                        id: msg_id.clone(),
                        node: node.clone(),
                        proc: proc.clone(),
                        tip: msg_tip.clone(),
                        data,
                        time: *time,
                        msg_type: LocalMessageType::Sent,
                    },
                );
                self.commands.push(
                    (*time, ControllerStateCommand::LocalMessageEmerged(msg_id.clone())),
                );
                proof {
                    assert(self.local_messages@.take(old(self).local_messages@.len() as int)
                        =~= old(self).local_messages@);
                }
            },
            LogEntry::LocalMessageReceived { time, msg_id, node, proc, msg_tip, msg_data } => {
                self.local_messages.push(
                    ControllerLocalMessage {
                        id: msg_id.clone(),
                        node: node.clone(),
                        proc: proc.clone(),
                        tip: msg_tip.clone(),
                        data: msg_data.clone(),
                        time: *time,
                        msg_type: LocalMessageType::Received,
                    },
                );
                self.commands.push(
                    (*time, ControllerStateCommand::LocalMessageEmerged(msg_id.clone())),
                );
            },
            LogEntry::MessageSent {
                time,
                msg_id,
                src_node,
                src_proc,
                dest_node,
                dest_proc,
                msg_tip,
                msg_data,
            } => {
                self.messages.push(
                    ControllerMessage {
                        id: msg_id.clone(),
                        src_node: src_node.clone(),
                        src_proc: src_proc.clone(),
                        dest_node: dest_node.clone(),
                        dest_proc: dest_proc.clone(),
                        tip: msg_tip.clone(),
                        data: msg_data.clone(),
                        time_sent: *time,
                        time_received: -1,
                        copies_received: 0,
                    },
                );
                self.commands.push(
                    (*time, ControllerStateCommand::MessageSent(msg_id.clone())),
                );
            },
            LogEntry::MessageReceived { time, msg_id } => {
                match self.find_message(msg_id) {
                    Some(j) => {
                        if self.messages[j].copies_received < u64::MAX {
                            let t = *time;
                            let mm = &mut self.messages[j];
                            mm.time_received = t as i64;
                            mm.copies_received = mm.copies_received + 1;
                        }
                        proof {
                            assert((j as int) < old(self).messages@.len()
                                && old(self).messages@[j as int].id@ == msg_id@);
                        }
                    },
                    None => {},
                }
            },
            LogEntry::MessageDropped { .. } => {},
            LogEntry::NodeConnected { time, node } => {
                self.commands.push(
                    (*time, ControllerStateCommand::NodeConnected(node.clone())),
                );
            },
            LogEntry::NodeDisconnected { time, node } => {
                self.commands.push(
                    (*time, ControllerStateCommand::NodeDisconnected(node.clone())),
                );
            },
            LogEntry::NodeCrashed { .. } => {},
            LogEntry::NodeRecovered { .. } => {},
            LogEntry::TimerSet { time, timer_id, timer_name, node, proc, delay } => {
                self.timers.push(
                    ControllerTimer {
                        id: timer_id.clone(),
                        name: timer_name.clone(),
                        node: node.clone(),
                        proc: proc.clone(),
                        time_set: *time,
                        delay: *delay,
                        time_removed: -1,
                    },
                );
                self.commands.push(
                    (*time, ControllerStateCommand::TimerSet(timer_id.clone())),
                );
            },
            LogEntry::TimerFired { time, timer_id } => {
                match self.find_timer(timer_id) {
                    Some(j) => {
                        let t = *time;
                        let tm = &mut self.timers[j];
                        tm.time_removed = t as i64;
                        proof {
                            assert((j as int) < old(self).timers@.len()
                                && old(self).timers@[j as int].id@ == timer_id@);
                        }
                    },
                    None => {},
                }
            },
            LogEntry::TimerCancelled { time, timer_id } => {
                match self.find_timer(timer_id) {
                    Some(j) => {
                        let t = *time;
                        let tm = &mut self.timers[j];
                        tm.time_removed = t as i64;
                        proof {
                            assert((j as int) < old(self).timers@.len()
                                && old(self).timers@[j as int].id@ == timer_id@);
                        }
                    },
                    None => {},
                }
            },
            LogEntry::LinkDisabled { time, from_node, from_proc, to_node, to_proc } => {
                self.commands.push(
                    (
                        *time,
                        ControllerStateCommand::LinkDisabled(
                            (from_node.clone(), to_node.clone()),
                        ),
                    ),
                );
            },
            LogEntry::LinkEnabled { time, from_node, from_proc, to_node, to_proc } => {
                self.commands.push(
                    (
                        *time,
                        ControllerStateCommand::LinkEnabled((from_node.clone(), to_node.clone())),
                    ),
                );
            },
            LogEntry::DropIncoming { time, node } => {
                self.commands.push(
                    (*time, ControllerStateCommand::DropIncoming(node.clone())),
                );
            },
            LogEntry::PassIncoming { time, node } => {
                self.commands.push(
                    (*time, ControllerStateCommand::PassIncoming(node.clone())),
                );
            },
            LogEntry::DropOutgoing { time, node } => {
                self.commands.push(
                    (*time, ControllerStateCommand::DropOutgoing(node.clone())),
                );
            },
            LogEntry::PassOutgoing { time, node } => {
                self.commands.push(
                    (*time, ControllerStateCommand::PassOutgoing(node.clone())),
                );
            },
            LogEntry::MakePartition {
                time,
                group1_nodes,
                group1_procs,
                group2_nodes,
                group2_procs,
            } => {
                self.commands.push(
                    (
                        *time,
                        ControllerStateCommand::NetworkPartition(
                            (
                                crate::state::clone_names(group1_nodes),
                                crate::state::clone_names(group2_nodes),
                            ),
                        ),
                    ),
                );
                proof {
                    assert(self.commands@.take(old(self).commands@.len() as int)
                        =~= old(self).commands@);
                }
            },
            LogEntry::ResetNetwork { time } => {
                self.commands.push((*time, ControllerStateCommand::NetworkReset()));
            },
            LogEntry::ProcessStateUpdated { time, node, proc, state } => {
                let pretty = match prettify_json_string(state.as_str()) {
                    Some(p) => p,
                    None => state.clone(),
                };
                let stripped = remove_backslashes(pretty.as_str());
                self.commands.push(
                    (
                        *time,
                        ControllerStateCommand::NodeStateUpdated((node.clone(), stripped)),
                    ),
                );
                proof {
                    assert(self.commands@.take(old(self).commands@.len() as int)
                        =~= old(self).commands@);
                }
            },
        }
        let ghost mid = *self;
        proof {
            assert(spec_parse_step(
                *old(self),
                entries@[from as int],
                node_positions@,
                nseen as int,
                mid,
            ));
        }
        self.parse_from(entries, node_positions, from + 1, nseen + started);
    }

    /// Reads the whole log into the controller: every entry becomes its
    /// command, message, local message or timer record; receipt and removal
    /// entries fill in the times of the records they refer to. By design the
    /// reader is total: a receipt, firing or cancellation whose id was never
    /// recorded is ignored rather than refused. The `k`-th started node takes
    /// the `k`-th of `node_positions`.
    pub fn parse_log(&mut self, entries: &Vec<LogEntry>, node_positions: &Vec<Point>)
        requires
            spec_count_node_started(entries@) <= node_positions@.len(),
        ensures
            spec_parsed(entries@, node_positions@, 0, *old(self), *final(self)),
    {
        proof {
            assert(entries@.skip(0) =~= entries@);
        }
        self.parse_from(entries, node_positions, 0, 0);
    }
}

} // verus!
