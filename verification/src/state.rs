//! The replay state machine: nodes, travelling messages, local messages, the
//! network condition (dropped directions, disabled links, a partition), a
//! queue of timestamped events, and the replay clock with its pause and speed
//! controls.

use vstd::prelude::*;
use std::collections::VecDeque;
use crate::local_message::{LocalMessageType, StateLocalMessage};
use crate::message::{MessageStatus, StateMessage};
use crate::node::StateNode;
use crate::timer::StateTimer;
use crate::utilities::{
    spec_dist_sq, spec_clip, dist_sq, clip_coord, Point, TIME_LIMIT, MAX_GLOBAL_SPEED, DEFAULT_GLOBAL_SPEED,
    DEFAULT_NODE_COLOR, NODE_RADIUS, MESSAGE_RADIUS, GLOBAL_SPEED_DELTA, SINGLE_CLICK_DELAY,
    TIMERS_MAX_NUMBER, COLOR_ORANGE, COLOR_YELLOW, COLOR_GREEN, COLOR_SKYBLUE, COLOR_BLUE,
    COLOR_PURPLE, COLOR_GOLD, COLOR_LIGHTGRAY, COLOR_PINK, COLOR_LIME, COLOR_VIOLET, COLOR_WHITE,
    COLOR_MAGENTA,
};

verus! {

/// An occurrence the replay clock will act on when it reaches its time.
#[derive(Debug)]
pub enum StateEvent {
    NodeStarted(String),
    MessageSent(String),
    LocalMessageSent(String),
    LocalMessageReceived(String),
    NodeConnected(String),
    NodeDisconnected(String),
    TimerSet(StateTimer),
    LinkDisabled((String, String)),
    LinkEnabled((String, String)),
    DropIncoming(String),
    PassIncoming(String),
    DropOutgoing(String),
    PassOutgoing(String),
    NetworkPartition((Vec<String>, Vec<String>)),
    NetworkReset(),
    NodeStateUpdated((String, String)),
}

/// An event with the replay time at which it takes effect.
pub struct EventQueueItem {
    pub time: u64,
    pub event: StateEvent,
}

/// One frame's worth of sampled input: which keys were pressed or held and
/// what the mouse did, read off the input devices by the front end.
#[derive(Clone, Copy, Debug)]
pub struct InputSample {
    pub space_pressed: bool,
    pub right_pressed: bool,
    pub up_down: bool,
    pub down_down: bool,
    pub mouse_left_down: bool,
    pub mouse_left_pressed: bool,
    pub mouse_left_released: bool,
    pub mouse_position: Point,
}

/// What the inspector windows currently show. `show_events_for_node` runs
/// parallel to the state's node list.
pub struct UIData {
    pub ordered_nodes: Vec<String>,
    pub show_events_for_node: Vec<bool>,
    pub show_node_windows: Vec<(String, bool)>,
    pub show_msg_windows: Vec<(String, bool)>,
    pub last_clicked: i64,
    pub selected_node: Option<String>,
    pub selected_mouse_position: Point,
    pub hovered_timer: Option<StateTimer>,
    pub show_timers: bool,
}

/// The whole replay state. `travelling_messages` holds indices into
/// `messages` of the messages currently moving across the plane.
pub struct State {
    pub nodes: Vec<StateNode>,
    pub travelling_messages: Vec<usize>,
    pub messages: Vec<StateMessage>,
    pub local_messages: Vec<StateLocalMessage>,
    pub event_queue: VecDeque<EventQueueItem>,
    pub current_time: u64,
    pub last_updated: u64,
    pub paused: bool,
    pub global_speed: u64,
    pub ui_data: UIData,
    pub node_colors: VecDeque<u32>,
    pub drop_outgoing: Vec<String>,
    pub drop_incoming: Vec<String>,
    pub disabled_links: Vec<(String, String)>,
    pub partition: Option<(Vec<String>, Vec<String>)>,
}

/// Whether `v` holds a string equal to `name`.
pub open spec fn spec_contains_name(v: Seq<String>, name: Seq<char>) -> bool {
    exists|i: int| 0 <= i < v.len() && (#[trigger] v[i])@ == name
}

/// Whether `v` holds the directed link `(from, to)`.
pub open spec fn spec_contains_link(
    v: Seq<(String, String)>,
    from: Seq<char>,
    to: Seq<char>,
) -> bool {
    exists|i: int| 0 <= i < v.len() && (#[trigger] v[i]).0@ == from && v[i].1@ == to
}

/// The state gained exactly one queued event, and nothing else changed: the
/// effect of the simple `process_*` calls.
pub open spec fn spec_command_queued(pre: State, post: State, time: u64, event: StateEvent) -> bool {
    &&& post.event_queue@ == pre.event_queue@.push(EventQueueItem { time, event })
    &&& post == (State { event_queue: post.event_queue, ..pre })
}

/// The effect of `process_node_started`: a fresh node with the next palette
/// color, a fresh interface row, and a queued start event.
pub open spec fn spec_node_started_applied(
    pre: State,
    post: State,
    time: u64,
    name: String,
    id: u32,
    pos: Point,
) -> bool {
    &&& post.nodes@ == pre.nodes@.push(post.nodes@.last())
    &&& ({
        let n = post.nodes@.last();
        n.name == name && n.id == id && n.pos == pos && n.connected && !n.show && n.state@
            == Seq::<char>::empty() && n.timers@.len() == 0 && n.local_messages_sent@.len() == 0
            && n.local_messages_received@.len() == 0 && n.messages_sent@.len() == 0
            && n.messages_received@.len() == 0 && n.free_timer_slots@.len() == TIMERS_MAX_NUMBER
            && (forall|i: int|
            0 <= i < TIMERS_MAX_NUMBER ==> (#[trigger] n.free_timer_slots@[i]) == i) && n.color
            == (if pre.node_colors@.len() > 0 {
            pre.node_colors@[0]
        } else {
            DEFAULT_NODE_COLOR
        })
    })
    &&& post.node_colors@ == if pre.node_colors@.len() > 0 {
        pre.node_colors@.drop_first()
    } else {
        pre.node_colors@
    }
    &&& post.ui_data.ordered_nodes@ == pre.ui_data.ordered_nodes@.push(name)
    &&& post.ui_data.show_events_for_node@ == pre.ui_data.show_events_for_node@.push(true)
    &&& post.event_queue@ == pre.event_queue@.push(
        EventQueueItem { time, event: StateEvent::NodeStarted(name) },
    )
    &&& post == (State {
        nodes: post.nodes,
        ui_data: post.ui_data,
        event_queue: post.event_queue,
        node_colors: post.node_colors,
        ..pre
    })
    &&& post.ui_data == (UIData {
        ordered_nodes: post.ui_data.ordered_nodes,
        show_events_for_node: post.ui_data.show_events_for_node,
        ..pre.ui_data
    })
}

/// The effect of `process_message_sent`: the speed adapts on the first timed
/// message, the message is recorded, and its send event queued.
pub open spec fn spec_message_sent_applied(
    pre: State,
    post: State,
    id: String,
    time: u64,
    src: Seq<char>,
    dest: Seq<char>,
    tip: String,
    data: Seq<char>,
    duration: u64,
    copies_received: u64,
) -> bool {
    &&& post.global_speed == if pre.global_speed == DEFAULT_GLOBAL_SPEED && duration > 0 {
        if duration / 10 <= MAX_GLOBAL_SPEED {
            (duration / 10) as u64
        } else {
            MAX_GLOBAL_SPEED
        }
    } else {
        pre.global_speed
    }
    &&& post.messages@ == pre.messages@.push(post.messages@.last())
    &&& ({
        let m = post.messages@.last();
        let si = pre.spec_node_index(src);
        m.id == id && m.src == si && m.dest == pre.spec_node_index(dest) && m.tip == tip
            && m.data@ == data && m.status == MessageStatus::Queued && m.time_sent == time
            && m.time_delivered == time + duration && m.copies_received == copies_received && m.pos
            == pre.nodes@[si].pos && m.color == pre.nodes@[si].color
    })
    &&& post.event_queue@ == pre.event_queue@.push(
        EventQueueItem { time, event: StateEvent::MessageSent(id) },
    )
    &&& post == (State {
        global_speed: post.global_speed,
        messages: post.messages,
        event_queue: post.event_queue,
        ..pre
    })
}

/// The effect of `process_local_message`: the local message is recorded and
/// its sent or received event queued.
pub open spec fn spec_local_message_applied(
    pre: State,
    post: State,
    time: u64,
    id: String,
    node: String,
    data: String,
    is_sent: bool,
) -> bool {
    &&& post.local_messages@ == pre.local_messages@.push(
        StateLocalMessage {
            id: id,
            time,
            node,
            data,
            msg_type: if is_sent {
                LocalMessageType::Sent
            } else {
                LocalMessageType::Received
            },
        },
    )
    &&& post.event_queue@ == pre.event_queue@.push(
        EventQueueItem {
            time,
            event: if is_sent {
                StateEvent::LocalMessageSent(id)
            } else {
                StateEvent::LocalMessageReceived(id)
            },
        },
    )
    &&& post == (State {
        local_messages: post.local_messages,
        event_queue: post.event_queue,
        ..pre
    })
}

/// One drain step: the front event of the queue is due, it is popped, and
/// then applied (`spec_event_applied`).
pub open spec fn spec_drain_step(pre: State, post: State) -> bool {
    &&& pre.event_queue@.len() > 0
    &&& pre.current_time >= pre.event_queue@[0].time
    &&& exists|popped: State|
        (popped == (State { event_queue: popped.event_queue, ..pre }))
            && popped.event_queue@ == pre.event_queue@.drop_first()
            && #[trigger] spec_event_applied(popped, post, pre.event_queue@[0].event)
}

/// A chain of states linked by drain steps: each state of the trace steps to
/// the next by `spec_drain_step`.
pub open spec fn spec_drain_trace(trace: Seq<State>) -> bool {
    forall|i: int| 0 <= i < trace.len() - 1 ==> spec_drain_step(#[trigger] trace[i], trace[i + 1])
}

/// The state after one timer pass over every node at its own clock: each
/// node's timers and free slots become what `spec_process_timers` yields, and
/// nothing else changes.
pub open spec fn spec_timers_passed(
    pre: State,
    post: State,
    mouse: Point,
    offsets: Seq<Point>,
) -> bool {
    &&& post == (State { nodes: post.nodes, ..pre })
    &&& post.nodes@.len() == pre.nodes@.len()
    &&& forall|j: int|
        0 <= j < pre.nodes@.len() ==> {
            let r = crate::node::spec_process_timers(
                pre.nodes@[j].timers@,
                pre.nodes@[j].free_timer_slots@,
                pre.current_time as int,
                pre.ui_data.show_timers,
                pre.nodes@[j].pos,
                offsets,
                mouse,
            );
            (#[trigger] post.nodes@[j]) == (StateNode {
                timers: post.nodes@[j].timers,
                free_timer_slots: post.nodes@[j].free_timer_slots,
                ..pre.nodes@[j]
            }) && post.nodes@[j].timers@ == r.0 && post.nodes@[j].free_timer_slots@ == r.1
        }
}

/// The ids a node at position `d` receives from the delivered travelling
/// messages, in travelling order, one per recorded copy. `msgs` holds the
/// messages with their settled statuses.
pub open spec fn spec_deposits(trav: Seq<usize>, msgs: Seq<StateMessage>, d: int) -> Seq<String>
    decreases trav.len(),
{
    if trav.len() == 0 {
        Seq::<String>::empty()
    } else {
        spec_deposits(trav.drop_last(), msgs, d) + ({
            let m = msgs[trav.last() as int];
            if m.status == MessageStatus::Delivered && m.dest == d {
                Seq::new(m.copies_received as nat, |x: int| m.id)
            } else {
                Seq::<String>::empty()
            }
        })
    }
}

/// The travelling indices that stay after a frame: those whose message, with
/// its settled status, was neither delivered nor dropped.
pub open spec fn spec_kept(trav: Seq<usize>, msgs: Seq<StateMessage>) -> Seq<usize>
    decreases trav.len(),
{
    if trav.len() == 0 {
        Seq::<usize>::empty()
    } else {
        spec_kept(trav.drop_last(), msgs) + ({
            let st = msgs[trav.last() as int].status;
            if st != MessageStatus::Delivered && st != MessageStatus::Dropped {
                seq![trav.last()]
            } else {
                Seq::<usize>::empty()
            }
        })
    }
}

/// The state after one travelling pass at real time `now`: every travelling
/// message takes one frame step (`spec_msg_frame_stepped`), every delivered
/// one deposits its id once per copy on its destination, and the travelling
/// list keeps exactly the undelivered, undropped ones.
pub open spec fn spec_travel_passed(pre: State, post: State, now: u64) -> bool {
    &&& post == (State {
        nodes: post.nodes,
        messages: post.messages,
        travelling_messages: post.travelling_messages,
        ..pre
    })
    &&& post.messages@.len() == pre.messages@.len()
    &&& forall|m: usize|
        0 <= m < pre.messages@.len() ==> if pre.travelling_messages@.contains(m) {
            let m0 = pre.messages@[m as int];
            crate::message::spec_msg_frame_stepped(
                m0,
                #[trigger] post.messages@[m as int],
                pre.global_speed,
                pre.current_time,
                now,
                pre.nodes@[m0.src as int].pos,
                pre.nodes@[m0.dest as int].pos,
                pre.nodes@[m0.src as int].color,
                pre.nodes@[m0.src as int].id,
                pre.nodes@[m0.dest as int].id,
            )
        } else {
            post.messages@[m as int] == pre.messages@[m as int]
        }
    &&& post.travelling_messages@ == spec_kept(pre.travelling_messages@, post.messages@)
    &&& post.nodes@.len() == pre.nodes@.len()
    &&& forall|d: int|
        0 <= d < pre.nodes@.len() ==> (#[trigger] post.nodes@[d]) == (StateNode {
            messages_received: post.nodes@[d].messages_received,
            ..pre.nodes@[d]
        }) && post.nodes@[d].messages_received@ == pre.nodes@[d].messages_received@
            + spec_deposits(pre.travelling_messages@, post.messages@, d)
}

/// Neither the kept list nor the deposits change when messages outside the
/// travelling indices change.
pub proof fn lemma_retain_stable(
    trav: Seq<usize>,
    m1: Seq<StateMessage>,
    m2: Seq<StateMessage>,
    d: int,
)
    requires
        forall|w: int|
            0 <= w < trav.len() && (#[trigger] trav[w]) < m1.len() ==> m2.len() > trav[w]
                && m1[trav[w] as int] == m2[trav[w] as int],
        forall|w: int| 0 <= w < trav.len() ==> (#[trigger] trav[w]) < m1.len(),
    ensures
        spec_kept(trav, m1) == spec_kept(trav, m2),
        spec_deposits(trav, m1, d) == spec_deposits(trav, m2, d),
    decreases trav.len(),
{
    if trav.len() > 0 {
        assert forall|w: int|
            0 <= w < trav.drop_last().len() implies (#[trigger] trav.drop_last()[w])
            < m1.len() by {
            assert(trav[w] < m1.len());
        }
        assert forall|w: int|
            0 <= w < trav.drop_last().len() && (#[trigger] trav.drop_last()[w]) < m1.len() implies m2.len()
            > trav.drop_last()[w] && m1[trav.drop_last()[w] as int] == m2[trav.drop_last()[w] as int] by {
            assert(trav[w] == trav.drop_last()[w]);
        }
        lemma_retain_stable(trav.drop_last(), m1, m2, d);
        assert(trav[trav.len() - 1] == trav.last());
        assert(m1[trav.last() as int] == m2[trav.last() as int]);
    }
}

/// A queued event that can be processed in `s1` can still be processed in
/// any state `s2` that keeps `s1`'s nodes, messages and pending local
/// messages (possibly adding more).
pub proof fn lemma_event_wf_monotone(s1: State, s2: State, e: StateEvent)
    requires
        s1.event_wf(e),
        s1.nodes@.len() <= s2.nodes@.len(),
        forall|i: int| 0 <= i < s1.nodes@.len() ==> s2.nodes@[i] == s1.nodes@[i],
        s1.messages@.len() <= s2.messages@.len(),
        forall|i: int| 0 <= i < s1.messages@.len() ==> s2.messages@[i] == s1.messages@[i],
        s1.local_messages@.len() <= s2.local_messages@.len(),
        forall|i: int|
            0 <= i < s1.local_messages@.len() ==> s2.local_messages@[i] == s1.local_messages@[i],
    ensures
        s2.event_wf(e),
{
    match e {
        StateEvent::NodeStarted(n) => {
            lemma_has_node_monotone(s1, s2, n@);
        },
        StateEvent::MessageSent(id) => {
            let j = choose|j: int|
                0 <= j < s1.messages@.len() && (#[trigger] s1.messages@[j]).id@ == id@;
            assert(s2.messages@[j].id@ == id@);
        },
        StateEvent::LocalMessageSent(id) => {
            lemma_local_ok_monotone(s1, s2, id@);
        },
        StateEvent::LocalMessageReceived(id) => {
            lemma_local_ok_monotone(s1, s2, id@);
        },
        StateEvent::NodeConnected(n) => {
            lemma_has_node_monotone(s1, s2, n@);
        },
        StateEvent::NodeDisconnected(n) => {
            lemma_has_node_monotone(s1, s2, n@);
        },
        StateEvent::TimerSet(t) => {
            lemma_has_node_monotone(s1, s2, t.node@);
        },
        StateEvent::NodeStateUpdated(p) => {
            lemma_has_node_monotone(s1, s2, p.0@);
        },
        _ => {},
    }
}

/// A node of `s1` is also a node of any state that keeps `s1`'s nodes.
pub proof fn lemma_has_node_monotone(s1: State, s2: State, name: Seq<char>)
    requires
        s1.has_node(name),
        s1.nodes@.len() <= s2.nodes@.len(),
        forall|i: int| 0 <= i < s1.nodes@.len() ==> s2.nodes@[i] == s1.nodes@[i],
    ensures
        s2.has_node(name),
{
    let j = choose|j: int| 0 <= j < s1.nodes@.len() && (#[trigger] s1.nodes@[j]).name@ == name;
    assert(s2.nodes@[j].name@ == name);
}

/// A processable pending local message of `s1` is still processable in any
/// state that keeps `s1`'s nodes and pending local messages.
pub proof fn lemma_local_ok_monotone(s1: State, s2: State, id: Seq<char>)
    requires
        s1.local_message_ok(id),
        s1.nodes@.len() <= s2.nodes@.len(),
        forall|i: int| 0 <= i < s1.nodes@.len() ==> s2.nodes@[i] == s1.nodes@[i],
        s1.local_messages@.len() <= s2.local_messages@.len(),
        forall|i: int|
            0 <= i < s1.local_messages@.len() ==> s2.local_messages@[i] == s1.local_messages@[i],
    ensures
        s2.local_message_ok(id),
{
    let j = choose|j: int|
        0 <= j < s1.local_messages@.len() && (#[trigger] s1.local_messages@[j]).id@ == id
            && s1.has_node(s1.local_messages@[j].node@);
    assert(s2.local_messages@[j].id@ == id);
    lemma_has_node_monotone(s1, s2, s1.local_messages@[j].node@);
}

/// Under distinct node names, any index whose node carries `name` is the
/// node index of `name`.
pub proof fn lemma_node_index_unique(s: State, name: Seq<char>, i: int)
    requires
        forall|a: int, b: int|
            0 <= a < b < s.nodes@.len() ==> (#[trigger] s.nodes@[a]).name@ != (
            #[trigger] s.nodes@[b]).name@,
        0 <= i < s.nodes@.len(),
        s.nodes@[i].name@ == name,
    ensures
        i == s.spec_node_index(name),
        s.has_node(name),
{
    assert(s.has_node(name));
    let j = s.spec_node_index(name);
    assert(0 <= j < s.nodes@.len() && s.nodes@[j].name@ == name);
    if i < j {
        assert(s.nodes@[i].name@ != s.nodes@[j].name@);
    }
    if j < i {
        assert(s.nodes@[j].name@ != s.nodes@[i].name@);
    }
}

/// A queued local-message event always names a pending local message.
pub proof fn lemma_queued_local_id_exists(s: State, e: StateEvent)
    requires
        s.event_wf(e),
        State::spec_local_event_id(e) is Some,
    ensures
        s.has_local_message(State::spec_local_event_id(e)->Some_0),
{
    match e {
        StateEvent::LocalMessageSent(id) => {
            let j = choose|j: int|
                0 <= j < s.local_messages@.len() && (#[trigger] s.local_messages@[j]).id@ == id@
                    && s.has_node(s.local_messages@[j].node@);
            assert(s.local_messages@[j].id@ == id@);
        },
        StateEvent::LocalMessageReceived(id) => {
            let j = choose|j: int|
                0 <= j < s.local_messages@.len() && (#[trigger] s.local_messages@[j]).id@ == id@
                    && s.has_node(s.local_messages@[j].node@);
            assert(s.local_messages@[j].id@ == id@);
        },
        _ => {},
    }
}

/// Whether `v` holds a string equal to `name`.
pub fn contains_name(v: &Vec<String>, name: &String) -> (r: bool)
    ensures
        r == spec_contains_name(v@, name@),
{
    let mut i: usize = 0;
    while i < v.len()
        invariant
            i <= v@.len(),
            forall|j: int| 0 <= j < i ==> (#[trigger] v@[j])@ != name@,
        decreases v@.len() - i,
    {
        if v[i].eq(name) {
            return true;
        }
        i = i + 1;
    }
    false
}

/// Whether `v` holds the directed link `(from, to)`.
pub fn contains_link(v: &Vec<(String, String)>, from: &String, to: &String) -> (r: bool)
    ensures
        r == spec_contains_link(v@, from@, to@),
{
    let mut i: usize = 0;
    while i < v.len()
        invariant
            i <= v@.len(),
            forall|j: int|
                0 <= j < i ==> !((#[trigger] v@[j]).0@ == from@ && v@[j].1@ == to@),
        decreases v@.len() - i,
    {
        if v[i].0.eq(from) && v[i].1.eq(to) {
            return true;
        }
        i = i + 1;
    }
    false
}

/// Adds `name` to the set-like list `v` when it is not there yet.
fn insert_name(v: &mut Vec<String>, name: String)
    ensures
        final(v)@ == if spec_contains_name(old(v)@, name@) {
            old(v)@
        } else {
            old(v)@.push(name)
        },
{
    if !contains_name(v, &name) {
        v.push(name);
    }
}

/// Removes the string equal to `name` from `v`, when there is one; with
/// distinct entries, at most one leaves.
fn remove_name(v: &mut Vec<String>, name: &String)
    requires
        forall|i: int, j: int|
            0 <= i < j < old(v)@.len() ==> (#[trigger] old(v)@[i])@ != (#[trigger] old(v)@[j])@,
    ensures
        !spec_contains_name(old(v)@, name@) ==> final(v)@ == old(v)@,
        spec_contains_name(old(v)@, name@) ==> exists|k: int|
            0 <= k < old(v)@.len() && old(v)@[k]@ == name@ && final(v)@ == old(v)@.remove(k),
        !spec_contains_name(final(v)@, name@),
        forall|i: int, j: int|
            0 <= i < j < final(v)@.len() ==> (#[trigger] final(v)@[i])@ != (
            #[trigger] final(v)@[j])@,
        forall|n: Seq<char>|
            spec_contains_name(final(v)@, n) == (spec_contains_name(old(v)@, n) && n != name@),
{
    let mut i: usize = 0;
    while i < v.len()
        invariant
            i <= v@.len(),
            v@ == old(v)@,
            forall|a: int, b: int|
                0 <= a < b < old(v)@.len() ==> (#[trigger] old(v)@[a])@ != (
                #[trigger] old(v)@[b])@,
            forall|j: int| 0 <= j < i ==> (#[trigger] v@[j])@ != name@,
        decreases v@.len() - i,
    {
        if v[i].eq(name) {
            v.remove(i);
            proof {
                old(v)@.remove_ensures(i as int);
                assert forall|x: int, y: int|
                    0 <= x < y < v@.len() implies (#[trigger] v@[x])@ != (
                    #[trigger] v@[y])@ by {
                    let ox = if x < i { x } else { x + 1 };
                    let oy = if y < i { y } else { y + 1 };
                    assert(v@[x] == old(v)@[ox] && v@[y] == old(v)@[oy]);
                }
                assert forall|n: Seq<char>|
                    spec_contains_name(v@, n) == (spec_contains_name(old(v)@, n) && n
                        != name@) by {
                    if spec_contains_name(v@, n) {
                        let a = choose|a: int| 0 <= a < v@.len() && (#[trigger] v@[a])@ == n;
                        if a < i {
                            assert(old(v)@[a]@ == n);
                        } else {
                            assert(old(v)@[a + 1]@ == n);
                        }
                    }
                    if spec_contains_name(old(v)@, n) && n != name@ {
                        let a = choose|a: int|
                            0 <= a < old(v)@.len() && (#[trigger] old(v)@[a])@ == n;
                        if a < i {
                            assert(v@[a] == old(v)@[a]);
                            assert(v@[a]@ == n);
                        } else {
                            assert(a > i);
                            assert(v@[a - 1] == old(v)@[a]);
                            assert(v@[a - 1]@ == n);
                        }
                    }
                }
            }
            return;
        }
        i = i + 1;
    }
}

/// Adds the directed link `(from, to)` to the set-like list `v` when it is
/// not there yet.
fn insert_link(v: &mut Vec<(String, String)>, from: String, to: String)
    ensures
        final(v)@ == if spec_contains_link(old(v)@, from@, to@) {
            old(v)@
        } else {
            old(v)@.push((from, to))
        },
        forall|a: Seq<char>, b: Seq<char>|
            spec_contains_link(final(v)@, a, b) == (spec_contains_link(old(v)@, a, b) || (a
                == from@ && b == to@)),
{
    if !contains_link(v, &from, &to) {
        v.push((from, to));
        proof {
            assert(v@[old(v)@.len() as int] == (from, to));
            assert forall|a: Seq<char>, b: Seq<char>|
                spec_contains_link(v@, a, b) == (spec_contains_link(old(v)@, a, b) || (a == from@
                    && b == to@)) by {
                if spec_contains_link(v@, a, b) {
                    let k = choose|k: int|
                        0 <= k < v@.len() && (#[trigger] v@[k]).0@ == a && v@[k].1@ == b;
                    if k < old(v)@.len() {
                        assert(v@[k] == old(v)@[k]);
                        assert(old(v)@[k].0@ == a && old(v)@[k].1@ == b);
                    } else {
                        assert(v@[k] == (from, to));
                    }
                }
                if spec_contains_link(old(v)@, a, b) {
                    let k = choose|k: int|
                        0 <= k < old(v)@.len() && (#[trigger] old(v)@[k]).0@ == a && old(v)@[k].1@
                            == b;
                    assert(v@[k] == old(v)@[k]);
                    assert(v@[k].0@ == a && v@[k].1@ == b);
                }
            }
        }
    }
}

/// Removes the directed link `(from, to)` from `v`, when it is there; with
/// distinct entries, at most one leaves.
fn remove_link(v: &mut Vec<(String, String)>, from: &String, to: &String)
    requires
        forall|i: int, j: int|
            0 <= i < j < old(v)@.len() ==> !((#[trigger] old(v)@[i]).0@ == (
            #[trigger] old(v)@[j]).0@ && old(v)@[i].1@ == old(v)@[j].1@),
    ensures
        !spec_contains_link(old(v)@, from@, to@) ==> final(v)@ == old(v)@,
        spec_contains_link(old(v)@, from@, to@) ==> exists|k: int|
            0 <= k < old(v)@.len() && old(v)@[k].0@ == from@ && old(v)@[k].1@ == to@ && final(v)@
                == old(v)@.remove(k),
        forall|i: int, j: int|
            0 <= i < j < final(v)@.len() ==> !((#[trigger] final(v)@[i]).0@ == (
            #[trigger] final(v)@[j]).0@ && final(v)@[i].1@ == final(v)@[j].1@),
        forall|a: Seq<char>, b: Seq<char>|
            spec_contains_link(final(v)@, a, b) == (spec_contains_link(old(v)@, a, b) && !(a
                == from@ && b == to@)),
{
    let mut i: usize = 0;
    while i < v.len()
        invariant
            i <= v@.len(),
            v@ == old(v)@,
            forall|a: int, b: int|
                0 <= a < b < old(v)@.len() ==> !((#[trigger] old(v)@[a]).0@ == (
                #[trigger] old(v)@[b]).0@ && old(v)@[a].1@ == old(v)@[b].1@),
            forall|j: int|
                0 <= j < i ==> !((#[trigger] v@[j]).0@ == from@ && v@[j].1@ == to@),
        decreases v@.len() - i,
    {
        if v[i].0.eq(from) && v[i].1.eq(to) {
            v.remove(i);
            proof {
                old(v)@.remove_ensures(i as int);
                assert forall|x: int, y: int|
                    0 <= x < y < v@.len() implies !((#[trigger] v@[x]).0@ == (
                    #[trigger] v@[y]).0@ && v@[x].1@ == v@[y].1@) by {
                    let ox = if x < i { x } else { x + 1 };
                    let oy = if y < i { y } else { y + 1 };
                    assert(v@[x] == old(v)@[ox] && v@[y] == old(v)@[oy]);
                }
                assert forall|a: Seq<char>, b: Seq<char>|
                    spec_contains_link(v@, a, b) == (spec_contains_link(old(v)@, a, b) && !(a
                        == from@ && b == to@)) by {
                    if spec_contains_link(v@, a, b) {
                        let k = choose|k: int|
                            0 <= k < v@.len() && (#[trigger] v@[k]).0@ == a && v@[k].1@ == b;
                        if k < i {
                            assert(old(v)@[k].0@ == a && old(v)@[k].1@ == b);
                        } else {
                            assert(old(v)@[k + 1].0@ == a && old(v)@[k + 1].1@ == b);
                        }
                    }
                    if spec_contains_link(old(v)@, a, b) && !(a == from@ && b == to@) {
                        let k = choose|k: int|
                            0 <= k < old(v)@.len() && (#[trigger] old(v)@[k]).0@ == a && old(
                                v,
                            )@[k].1@ == b;
                        if k < i {
                            assert(v@[k] == old(v)@[k]);
                            assert(v@[k].0@ == a && v@[k].1@ == b);
                        } else {
                            assert(k > i);
                            assert(v@[k - 1] == old(v)@[k]);
                            assert(v@[k - 1].0@ == a && v@[k - 1].1@ == b);
                        }
                    }
                }
            }
            return;
        }
        i = i + 1;
    }
}

/// A copy of a list of names.
pub fn clone_names(v: &Vec<String>) -> (r: Vec<String>)
    ensures
        r@ == v@,
{
    let mut out: Vec<String> = Vec::new();
    let mut i: usize = 0;
    while i < v.len()
        invariant
            i <= v@.len(),
            out@ == v@.take(i as int),
        decreases v@.len() - i,
    {
        out.push(v[i].clone());
        proof {
            assert(out@ =~= v@.take(i as int + 1));
        }
        i = i + 1;
    }
    proof {
        assert(v@.take(v@.len() as int) =~= v@);
    }
    out
}

/// Whether `v` holds the index `x`.
pub fn contains_index(v: &Vec<usize>, x: usize) -> (r: bool)
    ensures
        r == v@.contains(x),
{
    let mut i: usize = 0;
    while i < v.len()
        invariant
            i <= v@.len(),
            forall|j: int| 0 <= j < i ==> (#[trigger] v@[j]) != x,
        decreases v@.len() - i,
    {
        if v[i] == x {
            proof {
                assert(v@[i as int] == x);
            }
            return true;
        }
        i = i + 1;
    }
    false
}

impl State {
    /// There is a node of this name.
    pub open spec fn has_node(self, name: Seq<char>) -> bool {
        exists|i: int| 0 <= i < self.nodes@.len() && (#[trigger] self.nodes@[i]).name@ == name
    }

    /// The index of the node of this name (unique under `wf`).
    pub open spec fn spec_node_index(self, name: Seq<char>) -> int {
        choose|i: int| 0 <= i < self.nodes@.len() && (#[trigger] self.nodes@[i]).name@ == name
    }

    /// There is a message of this id.
    pub open spec fn has_message(self, id: Seq<char>) -> bool {
        exists|i: int| 0 <= i < self.messages@.len() && (#[trigger] self.messages@[i]).id@ == id
    }

    /// The index of the message of this id (unique under `wf`).
    pub open spec fn spec_message_index(self, id: Seq<char>) -> int {
        choose|i: int| 0 <= i < self.messages@.len() && (#[trigger] self.messages@[i]).id@ == id
    }

    /// There is a pending local message of this id.
    pub open spec fn has_local_message(self, id: Seq<char>) -> bool {
        exists|i: int|
            0 <= i < self.local_messages@.len() && (#[trigger] self.local_messages@[i]).id@ == id
    }

    /// The index of the pending local message of this id (unique under `wf`).
    pub open spec fn spec_local_message_index(self, id: Seq<char>) -> int {
        choose|i: int|
            0 <= i < self.local_messages@.len() && (#[trigger] self.local_messages@[i]).id@ == id
    }

    /// There is a pending local message of this id and its node exists.
    pub open spec fn local_message_ok(self, id: Seq<char>) -> bool {
        exists|j: int|
            0 <= j < self.local_messages@.len() && (#[trigger] self.local_messages@[j]).id@ == id
                && self.has_node(self.local_messages@[j].node@)
    }

    /// What a queued event needs of the state for processing it to be
    /// defined: its referents exist.
    pub open spec fn event_wf(self, e: StateEvent) -> bool {
        match e {
            StateEvent::NodeStarted(n) => self.has_node(n@),
            StateEvent::MessageSent(id) => self.has_message(id@),
            StateEvent::LocalMessageSent(id) => self.local_message_ok(id@),
            StateEvent::LocalMessageReceived(id) => self.local_message_ok(id@),
            StateEvent::NodeConnected(n) => self.has_node(n@),
            StateEvent::NodeDisconnected(n) => self.has_node(n@),
            StateEvent::TimerSet(t) => self.has_node(t.node@) && t.k == -1,
            StateEvent::NodeStateUpdated(p) => self.has_node(p.0@),
            _ => true,
        }
    }

    /// The id of the pending local message a queued event refers to, if any.
    pub open spec fn spec_local_event_id(e: StateEvent) -> Option<Seq<char>> {
        match e {
            StateEvent::LocalMessageSent(id) => Some(id@),
            StateEvent::LocalMessageReceived(id) => Some(id@),
            _ => None,
        }
    }

    /// Every queued event can be processed, and no two queued events claim
    /// the same pending local message.
    pub open spec fn queue_wf(self) -> bool {
        &&& forall|i: int|
            0 <= i < self.event_queue@.len() ==> self.event_wf(
                (#[trigger] self.event_queue@[i]).event)
        &&& forall|i: int|
            0 <= i < self.event_queue@.len()
                ==> (#[trigger] self.event_queue@[i]).time <= TIME_LIMIT
        &&& forall|i: int, j: int|
            0 <= i < j < self.event_queue@.len()
                && Self::spec_local_event_id(self.event_queue@[i].event) is Some
                && Self::spec_local_event_id(self.event_queue@[j].event) is Some
                ==> Self::spec_local_event_id(self.event_queue@[i].event)
                != Self::spec_local_event_id(self.event_queue@[j].event)
    }

    /// The state is consistent: node names and message ids are unique, every
    /// message connects existing nodes, the travelling list holds distinct
    /// indices of messages on the way, the interface lists run parallel to
    /// the node list, the clock and speed are within their working ranges,
    /// and the event queue is processable.
    pub open spec fn core_wf(self) -> bool {
        &&& forall|i: int, j: int|
            0 <= i < j < self.nodes@.len() ==> (#[trigger] self.nodes@[i]).name@ != (
            #[trigger] self.nodes@[j]).name@
        &&& forall|i: int|
            0 <= i < self.nodes@.len() ==> (#[trigger] self.nodes@[i]).slots_wf()
                && self.nodes@[i].pos.in_range()
        &&& forall|i: int, j: int|
            0 <= i < j < self.messages@.len() ==> (#[trigger] self.messages@[i]).id@ != (
            #[trigger] self.messages@[j]).id@
        &&& forall|i: int|
            0 <= i < self.messages@.len() ==> {
                let m = #[trigger] self.messages@[i];
                m.src < self.nodes@.len() && m.dest < self.nodes@.len() && m.pos.in_range()
                    && m.time_delivered <= TIME_LIMIT && m.last_color_change <= TIME_LIMIT
            }
        &&& forall|i: int|
            0 <= i < self.travelling_messages@.len() ==> (#[trigger] self.travelling_messages@[i])
                < self.messages@.len()
        &&& forall|i: int, j: int|
            0 <= i < j < self.travelling_messages@.len()
                ==> self.travelling_messages@[i] != self.travelling_messages@[j]
        &&& forall|i: int, j: int|
            0 <= i < j < self.local_messages@.len() ==> (#[trigger] self.local_messages@[i]).id@
                != (#[trigger] self.local_messages@[j]).id@
        &&& self.ui_data.ordered_nodes@.len() == self.nodes@.len()
        &&& forall|i: int|
            0 <= i < self.nodes@.len() ==> (#[trigger] self.ui_data.ordered_nodes@[i])@
                == self.nodes@[i].name@
        &&& self.ui_data.show_events_for_node@.len() == self.nodes@.len()
        &&& forall|i: int, j: int|
            0 <= i < j < self.drop_incoming@.len() ==> (#[trigger] self.drop_incoming@[i])@ != (
            #[trigger] self.drop_incoming@[j])@
        &&& forall|i: int, j: int|
            0 <= i < j < self.drop_outgoing@.len() ==> (#[trigger] self.drop_outgoing@[i])@ != (
            #[trigger] self.drop_outgoing@[j])@
        &&& forall|i: int, j: int|
            0 <= i < j < self.disabled_links@.len() ==> !((#[trigger] self.disabled_links@[i]).0@
                == (#[trigger] self.disabled_links@[j]).0@ && self.disabled_links@[i].1@
                == self.disabled_links@[j].1@)
        &&& self.ui_data.selected_mouse_position.in_range()
        &&& -1 <= self.ui_data.last_clicked <= TIME_LIMIT
        &&& self.current_time <= TIME_LIMIT
        &&& self.last_updated <= TIME_LIMIT
        &&& self.global_speed <= MAX_GLOBAL_SPEED
    }

    /// The state is consistent and its event queue is processable.
    pub open spec fn wf(self) -> bool {
        self.core_wf() && self.queue_wf()
    }

    /// The index of the first node of this name.
    pub fn find_node(&self, name: &String) -> (r: Option<usize>)
        ensures
            match r {
                Some(i) => i < self.nodes@.len() && self.nodes@[i as int].name@ == name@,
                None => !self.has_node(name@),
            },
    {
        let mut i: usize = 0;
        while i < self.nodes.len()
            invariant
                i <= self.nodes@.len(),
                forall|j: int| 0 <= j < i ==> (#[trigger] self.nodes@[j]).name@ != name@,
            decreases self.nodes@.len() - i,
        {
            if self.nodes[i].name.eq(name) {
                return Some(i);
            }
            i = i + 1;
        }
        None
    }

    /// The index of the first message of this id.
    pub fn find_message(&self, id: &String) -> (r: Option<usize>)
        ensures
            match r {
                Some(i) => i < self.messages@.len() && self.messages@[i as int].id@ == id@,
                None => !self.has_message(id@),
            },
    {
        let mut i: usize = 0;
        while i < self.messages.len()
            invariant
                i <= self.messages@.len(),
                forall|j: int| 0 <= j < i ==> (#[trigger] self.messages@[j]).id@ != id@,
            decreases self.messages@.len() - i,
        {
            if self.messages[i].id.eq(id) {
                return Some(i);
            }
            i = i + 1;
        }
        None
    }

    /// The index of the first pending local message of this id.
    pub fn find_local_message(&self, id: &String) -> (r: Option<usize>)
        ensures
            match r {
                Some(i) => i < self.local_messages@.len() && self.local_messages@[i as int].id@
                    == id@,
                None => !self.has_local_message(id@),
            },
    {
        let mut i: usize = 0;
        while i < self.local_messages.len()
            invariant
                i <= self.local_messages@.len(),
                forall|j: int| 0 <= j < i ==> (#[trigger] self.local_messages@[j]).id@ != id@,
            decreases self.local_messages@.len() - i,
        {
            if self.local_messages[i].id.eq(id) {
                return Some(i);
            }
            i = i + 1;
        }
        None
    }

    /// A fresh state: no nodes or messages, the clock at zero and running,
    /// the default speed, and the full node color palette.
    pub fn new() -> (r: State)
        ensures
            r.wf(),
            r.nodes@.len() == 0,
            r.travelling_messages@.len() == 0,
            r.messages@.len() == 0,
            r.local_messages@.len() == 0,
            r.event_queue@.len() == 0,
            r.current_time == 0,
            r.last_updated == 0,
            !r.paused,
            r.global_speed == DEFAULT_GLOBAL_SPEED,
            r.node_colors@ == seq![
                COLOR_ORANGE,
                COLOR_YELLOW,
                COLOR_GREEN,
                COLOR_SKYBLUE,
                COLOR_BLUE,
                COLOR_PURPLE,
                COLOR_GOLD,
                COLOR_LIGHTGRAY,
                COLOR_PINK,
                COLOR_LIME,
                COLOR_VIOLET,
                COLOR_WHITE,
                COLOR_MAGENTA,
            ],
            r.ui_data.show_node_windows@.len() == 0,
            r.ui_data.show_msg_windows@.len() == 0,
            r.ui_data.last_clicked == -1,
            r.ui_data.selected_node is None,
            r.ui_data.hovered_timer is None,
            !r.ui_data.show_timers,
            r.drop_outgoing@.len() == 0 && r.drop_incoming@.len() == 0,
            r.disabled_links@.len() == 0,
            r.partition is None,
    {
        let mut palette: VecDeque<u32> = VecDeque::new();
        palette.push_back(COLOR_ORANGE);
        palette.push_back(COLOR_YELLOW);
        palette.push_back(COLOR_GREEN);
        palette.push_back(COLOR_SKYBLUE);
        palette.push_back(COLOR_BLUE);
        palette.push_back(COLOR_PURPLE);
        palette.push_back(COLOR_GOLD);
        palette.push_back(COLOR_LIGHTGRAY);
        palette.push_back(COLOR_PINK);
        palette.push_back(COLOR_LIME);
        palette.push_back(COLOR_VIOLET);
        palette.push_back(COLOR_WHITE);
        palette.push_back(COLOR_MAGENTA);
        proof {
            assert(palette@ =~= seq![
                COLOR_ORANGE,
                COLOR_YELLOW,
                COLOR_GREEN,
                COLOR_SKYBLUE,
                COLOR_BLUE,
                COLOR_PURPLE,
                COLOR_GOLD,
                COLOR_LIGHTGRAY,
                COLOR_PINK,
                COLOR_LIME,
                COLOR_VIOLET,
                COLOR_WHITE,
                COLOR_MAGENTA,
            ]);
        }
        State {
            nodes: Vec::new(),
            travelling_messages: Vec::new(),
            messages: Vec::new(),
            local_messages: Vec::new(),
            event_queue: VecDeque::new(),
            current_time: 0,
            last_updated: 0,
            paused: false,
            global_speed: DEFAULT_GLOBAL_SPEED,
            ui_data: UIData {
                ordered_nodes: Vec::new(),
                show_events_for_node: Vec::new(),
                show_node_windows: Vec::new(),
                show_msg_windows: Vec::new(),
                last_clicked: -1,
                selected_node: None,
                selected_mouse_position: Point { x: 0, y: 0 },
                hovered_timer: None,
                show_timers: false,
            },
            node_colors: palette,
            drop_outgoing: Vec::new(),
            drop_incoming: Vec::new(),
            disabled_links: Vec::new(),
            partition: None,
        }
    }

    /// Appends one event to the queue, keeping the state consistent.
    fn push_event(&mut self, time: u64, event: StateEvent)
        requires
            old(self).wf(),
            time <= TIME_LIMIT,
            old(self).event_wf(event),
            Self::spec_local_event_id(event) is Some ==> forall|i: int|
                0 <= i < old(self).event_queue@.len() ==> Self::spec_local_event_id(
                    (#[trigger] old(self).event_queue@[i]).event) != Self::spec_local_event_id(
                    event),
        ensures
            final(self).event_queue@ == old(self).event_queue@.push(
                EventQueueItem { time, event }),
            *final(self) == (State { event_queue: final(self).event_queue, ..*old(self) }),
            final(self).wf(),
    {
        let ghost ev = event;
        self.event_queue.push_back(EventQueueItem { time, event });
        proof {
            assert forall|i: int|
                0 <= i < self.event_queue@.len() implies self.event_wf(
                (#[trigger] self.event_queue@[i]).event) by {
                if i < old(self).event_queue@.len() {
                    assert(old(self).event_wf(old(self).event_queue@[i].event));
                    assert(self.event_queue@[i] == old(self).event_queue@[i]);
                    lemma_event_wf_monotone(*old(self), *self, self.event_queue@[i].event);
                } else {
                    assert(self.event_queue@[i].event == ev);
                    lemma_event_wf_monotone(*old(self), *self, ev);
                }
            }
        }
    }

    pub fn process_node_disconnected(&mut self, time: u64, node: String)
        requires
            old(self).wf(),
            old(self).has_node(node@),
            time <= TIME_LIMIT,
        ensures
            spec_command_queued(*old(self), *final(self), time, StateEvent::NodeDisconnected(node)),
            final(self).wf(),
    {
        self.push_event(time, StateEvent::NodeDisconnected(node));
    }

    pub fn process_node_connected(&mut self, time: u64, node: String)
        requires
            old(self).wf(),
            old(self).has_node(node@),
            time <= TIME_LIMIT,
        ensures
            spec_command_queued(*old(self), *final(self), time, StateEvent::NodeConnected(node)),
            final(self).wf(),
    {
        self.push_event(time, StateEvent::NodeConnected(node));
    }

    pub fn process_link_disabled(&mut self, time: u64, from: String, to: String)
        requires
            old(self).wf(),
            time <= TIME_LIMIT,
        ensures
            spec_command_queued(*old(self), *final(self), time, StateEvent::LinkDisabled((from, to))),
            final(self).wf(),
    {
        self.push_event(time, StateEvent::LinkDisabled((from, to)));
    }

    pub fn process_link_enabled(&mut self, time: u64, from: String, to: String)
        requires
            old(self).wf(),
            time <= TIME_LIMIT,
        ensures
            spec_command_queued(*old(self), *final(self), time, StateEvent::LinkEnabled((from, to))),
            final(self).wf(),
    {
        self.push_event(time, StateEvent::LinkEnabled((from, to)));
    }

    pub fn process_drop_incoming(&mut self, time: u64, node: String)
        requires
            old(self).wf(),
            time <= TIME_LIMIT,
        ensures
            spec_command_queued(*old(self), *final(self), time, StateEvent::DropIncoming(node)),
            final(self).wf(),
    {
        self.push_event(time, StateEvent::DropIncoming(node));
    }

    pub fn process_pass_incoming(&mut self, time: u64, node: String)
        requires
            old(self).wf(),
            time <= TIME_LIMIT,
        ensures
            spec_command_queued(*old(self), *final(self), time, StateEvent::PassIncoming(node)),
            final(self).wf(),
    {
        self.push_event(time, StateEvent::PassIncoming(node));
    }

    pub fn process_drop_outgoing(&mut self, time: u64, node: String)
        requires
            old(self).wf(),
            time <= TIME_LIMIT,
        ensures
            spec_command_queued(*old(self), *final(self), time, StateEvent::DropOutgoing(node)),
            final(self).wf(),
    {
        self.push_event(time, StateEvent::DropOutgoing(node));
    }

    pub fn process_pass_outgoing(&mut self, time: u64, node: String)
        requires
            old(self).wf(),
            time <= TIME_LIMIT,
        ensures
            spec_command_queued(*old(self), *final(self), time, StateEvent::PassOutgoing(node)),
            final(self).wf(),
    {
        self.push_event(time, StateEvent::PassOutgoing(node));
    }

    pub fn process_network_partition(&mut self, time: u64, group1: Vec<String>, group2: Vec<
        String>)
        requires
            old(self).wf(),
            time <= TIME_LIMIT,
        ensures
            spec_command_queued(*old(self), *final(self), time, StateEvent::NetworkPartition((group1, group2))),
            final(self).wf(),
    {
        self.push_event(time, StateEvent::NetworkPartition((group1, group2)));
    }

    pub fn process_network_reset(&mut self, time: u64)
        requires
            old(self).wf(),
            time <= TIME_LIMIT,
        ensures
            spec_command_queued(*old(self), *final(self), time, StateEvent::NetworkReset()),
            final(self).wf(),
    {
        self.push_event(time, StateEvent::NetworkReset());
    }

    pub fn process_state_updated(&mut self, time: u64, node: String, node_state: String)
        requires
            old(self).wf(),
            old(self).has_node(node@),
            time <= TIME_LIMIT,
        ensures
            spec_command_queued(*old(self), *final(self), time, StateEvent::NodeStateUpdated((node, node_state))),
            final(self).wf(),
    {
        self.push_event(time, StateEvent::NodeStateUpdated((node, node_state)));
    }

    /// Queues a timer: it appears on its node, without a slot yet, when the
    /// clock reaches `time_set`.
    pub fn process_timer_set(
        &mut self,
        id: String,
        name: String,
        time_set: u64,
        node: String,
        delay: u64,
        time_removed: i64,
    )
        requires
            old(self).wf(),
            old(self).has_node(node@),
            time_set <= TIME_LIMIT,
        ensures
            spec_command_queued(
                *old(self),
                *final(self),
                time_set,
                StateEvent::TimerSet(
                    StateTimer { id, name, time_set, node, delay, time_removed, k: -1i32 },
                ),
            ),
            final(self).wf(),
    {
        let timer = StateTimer::new(id, name, time_set, node, delay, time_removed);
        self.push_event(time_set, StateEvent::TimerSet(timer));
    }

    /// Adds a node: it takes the next palette color, a fresh row in the
    /// interface lists, and a queued start event at `time`.
    pub fn process_node_started(&mut self, time: u64, name: String, id: u32, pos: Point)
        requires
            old(self).wf(),
            !old(self).has_node(name@),
            time <= TIME_LIMIT,
            pos.in_range(),
        ensures
            spec_node_started_applied(*old(self), *final(self), time, name, id, pos),
            final(self).wf(),
    {
        let color = match self.node_colors.pop_front() {
            Some(c) => c,
            None => DEFAULT_NODE_COLOR,
        };
        let node = StateNode::new(name, id, pos, color);
        let queue_name = node.name.clone();
        let order_name = node.name.clone();
        self.ui_data.show_events_for_node.push(true);
        self.ui_data.ordered_nodes.push(order_name);
        self.nodes.push(node);
        proof {
            assert forall|i: int|
                0 <= i < self.event_queue@.len() implies self.event_wf(
                (#[trigger] self.event_queue@[i]).event) by {
                assert(old(self).event_wf(old(self).event_queue@[i].event));
                lemma_event_wf_monotone(*old(self), *self, self.event_queue@[i].event);
            }
            assert(self.nodes@.last().name@ == name@);
        }
        self.push_event(time, StateEvent::NodeStarted(queue_name));
    }

    /// Records a sent message and queues its send event. When the speed was
    /// never adjusted and the message has a real duration, the replay speed
    /// adapts so the message crosses in about ten seconds of real time.
    pub fn process_message_sent(
        &mut self,
        id: String,
        time: u64,
        src: &String,
        dest: &String,
        tip: String,
        data: String,
        duration: u64,
        copies_received: u64,
    )
        requires
            old(self).wf(),
            old(self).has_node(src@),
            old(self).has_node(dest@),
            !old(self).has_message(id@),
            time <= TIME_LIMIT,
            time + duration <= TIME_LIMIT,
        ensures
            spec_message_sent_applied(
                *old(self),
                *final(self),
                id,
                time,
                src@,
                dest@,
                tip,
                data@,
                duration,
                copies_received,
            ),
            final(self).wf(),
    {
        if self.global_speed == DEFAULT_GLOBAL_SPEED && duration > 0 {
            let sp = duration / 10;
            self.global_speed = if sp <= MAX_GLOBAL_SPEED {
                sp
            } else {
                MAX_GLOBAL_SPEED
            };
        }
        let si = self.find_node(src).unwrap();
        let di = self.find_node(dest).unwrap();
        proof {
            lemma_node_index_unique(*old(self), src@, si as int);
            lemma_node_index_unique(*old(self), dest@, di as int);
        }
        let src_pos = self.nodes[si].pos;
        let src_color = self.nodes[si].color;
        let qid = id.clone();
        let msg = StateMessage::new(
            id,
            si,
            di,
            tip,
            data,
            MessageStatus::Queued,
            time,
            time + duration,
            copies_received,
            src_pos,
            src_color,
        );
        self.messages.push(msg);
        proof {
            assert forall|i: int|
                0 <= i < self.event_queue@.len() implies self.event_wf(
                (#[trigger] self.event_queue@[i]).event) by {
                assert(old(self).event_wf(old(self).event_queue@[i].event));
                lemma_event_wf_monotone(*old(self), *self, self.event_queue@[i].event);
            }
            assert(self.messages@.last().id@ == qid@);
        }
        self.push_event(time, StateEvent::MessageSent(qid));
    }

    /// Records a local message and queues the event that will hand it to its
    /// node's sent or received list.
    pub fn process_local_message(
        &mut self,
        time: u64,
        id: String,
        node: String,
        data: String,
        is_sent: bool,
    )
        requires
            old(self).wf(),
            old(self).has_node(node@),
            !old(self).has_local_message(id@),
            time <= TIME_LIMIT,
        ensures
            spec_local_message_applied(*old(self), *final(self), time, id, node, data, is_sent),
            final(self).wf(),
    {
        let qid = id.clone();
        let msg_type = if is_sent {
            LocalMessageType::Sent
        } else {
            LocalMessageType::Received
        };
        let msg = StateLocalMessage { id, time, node, data, msg_type };
        self.local_messages.push(msg);
        let event = if is_sent {
            StateEvent::LocalMessageSent(qid)
        } else {
            StateEvent::LocalMessageReceived(qid)
        };
        proof {
            assert forall|i: int|
                0 <= i < self.event_queue@.len() implies self.event_wf(
                (#[trigger] self.event_queue@[i]).event) by {
                assert(old(self).event_wf(old(self).event_queue@[i].event));
                lemma_event_wf_monotone(*old(self), *self, self.event_queue@[i].event);
            }
            assert forall|i: int|
                0 <= i < self.event_queue@.len() && Self::spec_local_event_id(
                    (#[trigger] self.event_queue@[i]).event,
                ) is Some implies Self::spec_local_event_id(self.event_queue@[i].event)
                != Self::spec_local_event_id(event) by {
                lemma_queued_local_id_exists(
                    *old(self),
                    old(self).event_queue@[i].event,
                );
            }
            let j = self.local_messages@.len() - 1;
            assert(self.local_messages@[j].id@ == id@ && self.has_node(
                self.local_messages@[j].node@));
        }
        self.push_event(time, event);
    }

    /// Acts on one event, when the replay clock has reached its time: the
    /// named node starts showing, connects or disconnects, takes a timer or a
    /// local message or a new state text, a sent message starts travelling or
    /// is dropped at once (when its destination or source drops incoming
    /// traffic, or their link is disabled), links and drop lists change, or a
    /// partition is made or reset. A node-state text that is not JSON is, by
    /// design, kept as it came instead of being refused. Returns whether the
    /// event was acted on; before its time nothing changes. Processing a
    /// local-message event
    /// takes its entry out of `local_messages`, so a queue holding that very
    /// event must be popped before the state is used further; every other
    /// queued event stays processable.
    pub fn process_event(&mut self, time: u64, event: StateEvent) -> (processed: bool)
        requires
            old(self).wf(),
            old(self).event_wf(event),
        ensures
            processed == (old(self).current_time >= time),
            !processed ==> *final(self) == *old(self),
            processed ==> spec_event_applied(*old(self), *final(self), event),
            final(self).core_wf(),
            final(self).event_queue == old(self).event_queue,
            forall|q: int|
                0 <= q < final(self).event_queue@.len() && (Self::spec_local_event_id(
                    (#[trigger] final(self).event_queue@[q]).event,
                ) is None || Self::spec_local_event_id(final(self).event_queue@[q].event)
                    != Self::spec_local_event_id(event)) ==> final(self).event_wf(
                    final(self).event_queue@[q].event),
    {
        if self.current_time < time {
            return false;
        }
        let ghost pre = *old(self);
        match event {
            StateEvent::NodeStarted(n) => {
                let i = self.find_node(&n).unwrap();
                proof {
                    lemma_node_index_unique(pre, n@, i as int);
                }
                let nd = self.node_mut(i);
                nd.show = true;
                proof {
                    lemma_core_wf_node_update(pre, *self, i as int);
                    assert forall|q: int|
                        0 <= q < self.event_queue@.len() implies self.event_wf(
                        (#[trigger] self.event_queue@[q]).event) by {
                        lemma_event_wf_node_update(pre, *self, i as int,
                            self.event_queue@[q].event);
                    }
                }
            },
            StateEvent::NodeConnected(n) => {
                let i = self.find_node(&n).unwrap();
                proof {
                    lemma_node_index_unique(pre, n@, i as int);
                }
                let nd = self.node_mut(i);
                nd.connected = true;
                proof {
                    lemma_core_wf_node_update(pre, *self, i as int);
                    assert forall|q: int|
                        0 <= q < self.event_queue@.len() implies self.event_wf(
                        (#[trigger] self.event_queue@[q]).event) by {
                        lemma_event_wf_node_update(pre, *self, i as int,
                            self.event_queue@[q].event);
                    }
                }
            },
            StateEvent::NodeDisconnected(n) => {
                let i = self.find_node(&n).unwrap();
                proof {
                    lemma_node_index_unique(pre, n@, i as int);
                }
                let nd = self.node_mut(i);
                nd.connected = false;
                proof {
                    lemma_core_wf_node_update(pre, *self, i as int);
                    assert forall|q: int|
                        0 <= q < self.event_queue@.len() implies self.event_wf(
                        (#[trigger] self.event_queue@[q]).event) by {
                        lemma_event_wf_node_update(pre, *self, i as int,
                            self.event_queue@[q].event);
                    }
                }
            },
            StateEvent::TimerSet(t) => {
                let i = self.find_node(&t.node).unwrap();
                proof {
                    lemma_node_index_unique(pre, t.node@, i as int);
                }
                let ghost gt = t;
                let nd = self.node_mut(i);
                nd.timers.push_back(t);
                proof {
                    assert(self.nodes@[i as int].timers@ == pre.nodes@[i as int].timers@.push(gt));
                    lemma_core_wf_node_update(pre, *self, i as int);
                    assert forall|q: int|
                        0 <= q < self.event_queue@.len() implies self.event_wf(
                        (#[trigger] self.event_queue@[q]).event) by {
                        lemma_event_wf_node_update(pre, *self, i as int,
                            self.event_queue@[q].event);
                    }
                }
            },
            StateEvent::NodeStateUpdated(p) => {
                let (n, st) = p;
                let i = self.find_node(&n).unwrap();
                proof {
                    lemma_node_index_unique(pre, n@, i as int);
                }
                let pretty = match crate::utilities::prettify_json_string(st.as_str()) {
                    Some(pr) => pr,
                    None => st,
                };
                let nd = self.node_mut(i);
                nd.state = pretty;
                proof {
                    lemma_core_wf_node_update(pre, *self, i as int);
                    assert forall|q: int|
                        0 <= q < self.event_queue@.len() implies self.event_wf(
                        (#[trigger] self.event_queue@[q]).event) by {
                        lemma_event_wf_node_update(pre, *self, i as int,
                            self.event_queue@[q].event);
                    }
                }
            },
            StateEvent::LocalMessageSent(id) => {
                let li = self.find_local_message(&id).unwrap();
                let m = self.local_messages.remove(li);
                let ni = self.find_node(&m.node).unwrap();
                proof {
                    let w = choose|w: int|
                        0 <= w < pre.local_messages@.len() && (#[trigger] pre.local_messages@[w]).id@
                            == id@ && pre.has_node(pre.local_messages@[w].node@);
                    assert(w == li as int);
                    assert(li as int == pre.spec_local_message_index(id@));
                    lemma_node_index_unique(pre, m.node@, ni as int);
                    pre.local_messages@.remove_ensures(li as int);
                }
                let nd = self.node_mut(ni);
                nd.local_messages_sent.push(m);
                proof {
                    lemma_core_wf_local_removed(pre, *self, li as int, ni as int);
                    assert forall|q: int|
                        0 <= q < self.event_queue@.len() && (Self::spec_local_event_id(
                            (#[trigger] self.event_queue@[q]).event,
                        ) is None || Self::spec_local_event_id(self.event_queue@[q].event)
                            != Self::spec_local_event_id(
                            StateEvent::LocalMessageSent(id),
                        )) implies self.event_wf(self.event_queue@[q].event) by {
                        lemma_event_wf_local_removed(pre, *self, li as int, ni as int, id@,
                            self.event_queue@[q].event);
                    }
                }
            },
            StateEvent::LocalMessageReceived(id) => {
                let li = self.find_local_message(&id).unwrap();
                let m = self.local_messages.remove(li);
                let ni = self.find_node(&m.node).unwrap();
                proof {
                    let w = choose|w: int|
                        0 <= w < pre.local_messages@.len() && (#[trigger] pre.local_messages@[w]).id@
                            == id@ && pre.has_node(pre.local_messages@[w].node@);
                    assert(w == li as int);
                    assert(li as int == pre.spec_local_message_index(id@));
                    lemma_node_index_unique(pre, m.node@, ni as int);
                    pre.local_messages@.remove_ensures(li as int);
                }
                let nd = self.node_mut(ni);
                nd.local_messages_received.push(m);
                proof {
                    lemma_core_wf_local_removed(pre, *self, li as int, ni as int);
                    assert forall|q: int|
                        0 <= q < self.event_queue@.len() && (Self::spec_local_event_id(
                            (#[trigger] self.event_queue@[q]).event,
                        ) is None || Self::spec_local_event_id(self.event_queue@[q].event)
                            != Self::spec_local_event_id(
                            StateEvent::LocalMessageReceived(id),
                        )) implies self.event_wf(self.event_queue@[q].event) by {
                        lemma_event_wf_local_removed(pre, *self, li as int, ni as int, id@,
                            self.event_queue@[q].event);
                    }
                }
            },
            StateEvent::MessageSent(id) => {
                let mi = self.find_message(&id).unwrap();
                proof {
                    lemma_message_index_unique(pre, id@, mi as int);
                }
                let src_i = self.messages[mi].src;
                let dest_i = self.messages[mi].dest;
                let src_name = self.nodes[src_i].name.clone();
                let dest_name = self.nodes[dest_i].name.clone();
                {
                    let nd = self.node_mut(src_i);
                    nd.messages_sent.push(id);
                }
                let dropped = contains_name(&self.drop_incoming, &dest_name) || contains_name(
                    &self.drop_incoming,
                    &src_name,
                ) || contains_link(&self.disabled_links, &src_name, &dest_name);
                if dropped {
                    let mm = self.message_mut(mi);
                    mm.status = MessageStatus::Dropped;
                } else {
                    let src_pos = self.nodes[src_i].pos;
                    {
                        let mm = self.message_mut(mi);
                        mm.pos = src_pos;
                        mm.status = MessageStatus::OnTheWay;
                    }
                    if !contains_index(&self.travelling_messages, mi) {
                        self.travelling_messages.push(mi);
                    }
                }
                proof {
                    lemma_core_wf_message_arm(pre, *self, src_i as int, mi as int);
                    assert forall|q: int|
                        0 <= q < self.event_queue@.len() implies self.event_wf(
                        (#[trigger] self.event_queue@[q]).event) by {
                        lemma_event_wf_message_arm(pre, *self, src_i as int, mi as int,
                            self.event_queue@[q].event);
                    }
                }
            },
            StateEvent::LinkDisabled(l) => {
                let (f, t) = l;
                insert_link(&mut self.disabled_links, f, t);
                proof {
                    lemma_after_lists_change(pre, *self);
                }
            },
            StateEvent::LinkEnabled(l) => {
                let (f, t) = l;
                remove_link(&mut self.disabled_links, &f, &t);
                proof {
                    lemma_after_lists_change(pre, *self);
                }
            },
            StateEvent::DropIncoming(n) => {
                insert_name(&mut self.drop_incoming, n);
                proof {
                    lemma_after_lists_change(pre, *self);
                }
            },
            StateEvent::PassIncoming(n) => {
                remove_name(&mut self.drop_incoming, &n);
                proof {
                    lemma_after_lists_change(pre, *self);
                }
            },
            StateEvent::DropOutgoing(n) => {
                insert_name(&mut self.drop_outgoing, n);
                proof {
                    lemma_after_lists_change(pre, *self);
                }
            },
            StateEvent::PassOutgoing(n) => {
                remove_name(&mut self.drop_outgoing, &n);
                proof {
                    lemma_after_lists_change(pre, *self);
                }
            },
            StateEvent::NetworkPartition(g) => {
                let (g1, g2) = g;
                self.apply_partition(g1, g2);
            },
            StateEvent::NetworkReset() => {
                self.partition = None;
                self.drop_incoming = Vec::new();
                self.drop_outgoing = Vec::new();
                self.disabled_links = Vec::new();
                proof {
                    lemma_after_lists_change(pre, *self);
                }
            },
        }
        true
    }

    /// Disables every link between the two groups, in both directions, and
    /// records the partition.
    fn apply_partition(&mut self, g1: Vec<String>, g2: Vec<String>)
        requires
            old(self).wf(),
        ensures
            *final(self) == (State {
                disabled_links: final(self).disabled_links,
                partition: final(self).partition,
                ..*old(self)
            }),
            final(self).partition == Some((g1, g2)),
            forall|a: Seq<char>, b: Seq<char>|
                spec_contains_link(final(self).disabled_links@, a, b) == (spec_contains_link(
                    old(self).disabled_links@,
                    a,
                    b,
                ) || (spec_contains_name(g1@, a) && spec_contains_name(g2@, b)) || (
                spec_contains_name(g2@, a) && spec_contains_name(g1@, b))),
            final(self).core_wf(),
            forall|q: int|
                0 <= q < final(self).event_queue@.len() ==> final(self).event_wf(
                    (#[trigger] final(self).event_queue@[q]).event),
    {
        let ghost pre = *old(self);
        partition_all(&mut self.disabled_links, &g1, &g2, 0);
        self.partition = Some((g1, g2));
        proof {
            assert forall|a: Seq<char>, b: Seq<char>|
                spec_contains_link(self.disabled_links@, a, b) == (spec_contains_link(
                    pre.disabled_links@,
                    a,
                    b,
                ) || (spec_contains_name(g1@, a) && spec_contains_name(g2@, b)) || (
                spec_contains_name(g2@, a) && spec_contains_name(g1@, b))) by {
                assert(spec_contains_link(self.disabled_links@, a, b) == (spec_contains_link(
                    pre.disabled_links@,
                    a,
                    b,
                ) || spec_pairs_from(g1@, g2@, 0, a, b)));
                if spec_pairs_from(g1@, g2@, 0, a, b) {
                    let (x, y): (int, int) = choose|x: int, y: int|
                        0 <= x < g1@.len() && 0 <= y < g2@.len() && (((#[trigger] g1@[x])@ == a
                            && (#[trigger] g2@[y])@ == b) || (g2@[y]@ == a && g1@[x]@ == b));
                    assert(spec_contains_name(g1@, g1@[x]@) && spec_contains_name(g2@, g2@[y]@));
                }
                if spec_contains_name(g1@, a) && spec_contains_name(g2@, b) {
                    let x = choose|x: int| 0 <= x < g1@.len() && (#[trigger] g1@[x])@ == a;
                    let y = choose|y: int| 0 <= y < g2@.len() && (#[trigger] g2@[y])@ == b;
                    assert(g1@[x]@ == a && g2@[y]@ == b);
                    assert(spec_pairs_from(g1@, g2@, 0, a, b));
                }
                if spec_contains_name(g2@, a) && spec_contains_name(g1@, b) {
                    let x = choose|x: int| 0 <= x < g1@.len() && (#[trigger] g1@[x])@ == b;
                    let y = choose|y: int| 0 <= y < g2@.len() && (#[trigger] g2@[y])@ == a;
                    assert(g2@[y]@ == a && g1@[x]@ == b);
                    assert(spec_pairs_from(g1@, g2@, 0, a, b));
                }
            }
            lemma_after_lists_change(pre, *self);
        }
    }

    /// The id of the first travelling message whose dot is under the mouse.
    pub fn get_msg_by_mouse_pos(&self, mouse_pos: Point) -> (r: Option<String>)
        requires
            forall|i: int|
                0 <= i < self.travelling_messages@.len() ==> (
                #[trigger] self.travelling_messages@[i]) < self.messages@.len(),
            forall|m: int|
                0 <= m < self.messages@.len() ==> (#[trigger] self.messages@[m]).pos.in_range(),
            mouse_pos.in_range(),
        ensures
            r == spec_msg_at(self.travelling_messages@, self.messages@, mouse_pos),
    {
        let mut i: usize = 0;
        proof {
            assert(self.travelling_messages@.skip(0) =~= self.travelling_messages@);
        }
        while i < self.travelling_messages.len()
            invariant
                forall|j: int|
                    0 <= j < self.travelling_messages@.len() ==> (
                    #[trigger] self.travelling_messages@[j]) < self.messages@.len(),
                forall|m: int|
                    0 <= m < self.messages@.len() ==> (
                    #[trigger] self.messages@[m]).pos.in_range(),
                mouse_pos.in_range(),
                i <= self.travelling_messages@.len(),
                spec_msg_at(self.travelling_messages@, self.messages@, mouse_pos) == spec_msg_at(
                    self.travelling_messages@.skip(i as int),
                    self.messages@,
                    mouse_pos,
                ),
            decreases self.travelling_messages@.len() - i,
        {
            let mi = self.travelling_messages[i];
            proof {
                assert(self.travelling_messages@.skip(i as int)[0]
                    == self.travelling_messages@[i as int]);
                assert(self.travelling_messages@.skip(i as int).drop_first()
                    =~= self.travelling_messages@.skip(i as int + 1));
            }
            if dist_sq(mouse_pos, self.messages[mi].pos) < (MESSAGE_RADIUS * MESSAGE_RADIUS)
                as u64 {
                return Some(self.messages[mi].id.clone());
            }
            i = i + 1;
        }
        proof {
            assert(self.travelling_messages@.skip(self.travelling_messages@.len() as int)
                =~= Seq::<usize>::empty());
        }
        None
    }

    /// The name of the first node whose circle is under the mouse.
    pub fn get_node_by_mouse_pos(&self, mouse_pos: Point) -> (r: Option<String>)
        requires
            forall|j: int| 0 <= j < self.nodes@.len() ==> (#[trigger] self.nodes@[j]).pos.in_range(),
            mouse_pos.in_range(),
        ensures
            r == spec_node_at(self.nodes@, mouse_pos),
    {
        let mut i: usize = 0;
        proof {
            assert(self.nodes@.skip(0) =~= self.nodes@);
        }
        while i < self.nodes.len()
            invariant
                forall|j: int|
                    0 <= j < self.nodes@.len() ==> (#[trigger] self.nodes@[j]).pos.in_range(),
                mouse_pos.in_range(),
                i <= self.nodes@.len(),
                spec_node_at(self.nodes@, mouse_pos) == spec_node_at(
                    self.nodes@.skip(i as int),
                    mouse_pos,
                ),
            decreases self.nodes@.len() - i,
        {
            proof {
                assert(self.nodes@.skip(i as int)[0] == self.nodes@[i as int]);
                assert(self.nodes@.skip(i as int).drop_first() =~= self.nodes@.skip(i as int + 1));
            }
            if dist_sq(mouse_pos, self.nodes[i].pos) < (NODE_RADIUS * NODE_RADIUS) as u64 {
                return Some(self.nodes[i].name.clone());
            }
            i = i + 1;
        }
        proof {
            assert(self.nodes@.skip(self.nodes@.len() as int) =~= Seq::<StateNode>::empty());
        }
        None
    }

    /// The first hovered timer over the nodes from `from` on.
    fn hover_from(&self, from: usize, mouse_pos: Point, slot_offsets: &Vec<Point>) -> (r: Option<
        StateTimer>)
        requires
            forall|j: int|
                0 <= j < self.nodes@.len() ==> (#[trigger] self.nodes@[j]).slots_wf()
                    && self.nodes@[j].pos.in_range(),
            from <= self.nodes@.len(),
            mouse_pos.in_range(),
            slot_offsets@.len() == TIMERS_MAX_NUMBER,
        ensures
            r == spec_state_hover(self.nodes@.skip(from as int), slot_offsets@, mouse_pos),
        decreases self.nodes@.len() - from,
    {
        if from < self.nodes.len() {
            proof {
                assert(self.nodes@.skip(from as int)[0] == self.nodes@[from as int]);
                assert(self.nodes@.skip(from as int).drop_first() =~= self.nodes@.skip(
                    from as int + 1));
            }
            let h = self.nodes[from].check_for_hovered_timer(mouse_pos, slot_offsets);
            if h.is_some() {
                h
            } else {
                self.hover_from(from + 1, mouse_pos, slot_offsets)
            }
        } else {
            proof {
                assert(self.nodes@.skip(from as int) =~= Seq::<StateNode>::empty());
            }
            None
        }
    }

    /// The pause, scrub and speed keys: space toggles pause; the right key
    /// scrubs the clock to just before the next queued event, advancing each
    /// travelling message by the time the scrub skips (a scrub never drags
    /// messages backward); the up and down keys step the replay speed.
    #[verifier::spinoff_prover]
    fn kb_clock(&mut self, input: &InputSample)
        requires
            old(self).wf(),
        ensures
            final(self).wf(),
            final(self).paused == spec_kb_paused(*old(self), *input),
            final(self).current_time == spec_kb_current_time(*old(self), *input),
            final(self).global_speed == spec_kb_speed(*old(self), *input),
            ({
                let scrub = input.right_pressed && old(self).event_queue@.len() > 0;
                let ct2 = spec_kb_current_time(*old(self), *input);
                let delta = if scrub && ct2 >= old(self).current_time {
                    (ct2 - old(self).current_time) as u64
                } else {
                    0u64
                };
                &&& final(self).messages@.len() == old(self).messages@.len()
                &&& forall|m: usize|
                    0 <= m < final(self).messages@.len()
                        ==> if scrub && old(self).travelling_messages@.contains(m) {
                        crate::message::spec_msg_jumped(
                            old(self).messages@[m as int],
                            #[trigger] final(self).messages@[m as int],
                            old(self).global_speed,
                            old(self).current_time,
                            delta,
                            old(self).nodes@[old(self).messages@[m as int].dest as int].pos,
                        )
                    } else {
                        final(self).messages@[m as int] == old(self).messages@[m as int]
                    }
            }),
            *final(self) == (State {
                messages: final(self).messages,
                current_time: final(self).current_time,
                paused: final(self).paused,
                global_speed: final(self).global_speed,
                ..*old(self)
            }),
    {
        let ghost pre = *old(self);
        if input.space_pressed {
            self.paused = !self.paused;
        }
        if input.right_pressed && self.event_queue.len() > 0 {
            let front_time = self.event_queue[0].time;
            let new_ct: u64 = if front_time >= 10 {
                front_time - 10
            } else {
                0
            };
            let delta: u64 = if new_ct >= self.current_time {
                new_ct - self.current_time
            } else {
                0
            };
            let ghost base = *self;
            let mut k: usize = 0;
            while k < self.travelling_messages.len()
                invariant
                    pre.wf(),
                    delta <= TIME_LIMIT,
                    k <= self.travelling_messages@.len(),
                    *self == (State { messages: self.messages, ..base }),
                    base == (State { paused: base.paused, ..pre }),
                    self.messages@.len() == pre.messages@.len(),
                    forall|m: usize|
                        0 <= m < self.messages@.len()
                            ==> if pre.travelling_messages@.take(k as int).contains(m) {
                            crate::message::spec_msg_jumped(
                                pre.messages@[m as int],
                                #[trigger] self.messages@[m as int],
                                pre.global_speed,
                                pre.current_time,
                                delta,
                                pre.nodes@[pre.messages@[m as int].dest as int].pos,
                            )
                        } else {
                            self.messages@[m as int] == pre.messages@[m as int]
                        },
                decreases self.travelling_messages@.len() - k,
            {
                let mi = self.travelling_messages[k];
                proof {
                    assert(pre.travelling_messages@[k as int] < pre.messages@.len());
                    if pre.travelling_messages@.take(k as int).contains(mi) {
                        let w = choose|w: int|
                            0 <= w < k && (#[trigger] pre.travelling_messages@.take(k as int)[w])
                                == mi;
                        assert(pre.travelling_messages@[w] == pre.travelling_messages@[k as int]);
                        assert(false);
                    }
                }
                let dest = self.messages[mi].dest;
                let dest_pos = self.nodes[dest].pos;
                let gs = self.global_speed;
                let ct = self.current_time;
                let ghost msgs0 = self.messages@;
                let mm = self.message_mut(mi);
                mm.update_with_jump(gs, ct, delta, dest_pos);
                proof {
                    assert(pre.travelling_messages@.take(k as int + 1) =~= pre.travelling_messages@.take(
                        k as int).push(mi));
                    assert forall|m: usize|
                        0 <= m < self.messages@.len() implies (if pre.travelling_messages@.take(
                        k as int + 1).contains(m) {
                        crate::message::spec_msg_jumped(
                            pre.messages@[m as int],
                            #[trigger] self.messages@[m as int],
                            pre.global_speed,
                            pre.current_time,
                            delta,
                            pre.nodes@[pre.messages@[m as int].dest as int].pos,
                        )
                    } else {
                        self.messages@[m as int] == pre.messages@[m as int]
                    }) by {
                        if m != mi {
                            assert(self.messages@[m as int] == msgs0[m as int]);
                            assert(pre.travelling_messages@.take(k as int + 1)[k as int] == mi);
                            if pre.travelling_messages@.take(k as int + 1).contains(m) {
                                let w = choose|w: int|
                                    0 <= w < k + 1 && (#[trigger] pre.travelling_messages@.take(
                                        k as int + 1,
                                    )[w]) == m;
                                assert(w < k);
                                assert(pre.travelling_messages@.take(k as int)[w] == m);
                            }
                            if pre.travelling_messages@.take(k as int).contains(m) {
                                let w = choose|w: int|
                                    0 <= w < k && (#[trigger] pre.travelling_messages@.take(
                                        k as int,
                                    )[w]) == m;
                                assert(pre.travelling_messages@.take(k as int + 1)[w] == m);
                            }
                        } else {
                            assert(pre.travelling_messages@.take(k as int + 1)[k as int] == mi);
                        }
                    }
                }
                k = k + 1;
            }
            proof {
                assert(pre.travelling_messages@.take(pre.travelling_messages@.len() as int)
                    =~= pre.travelling_messages@);
            }
            self.current_time = new_ct;
        }
        if input.up_down {
            self.global_speed = if self.global_speed + GLOBAL_SPEED_DELTA <= MAX_GLOBAL_SPEED {
                self.global_speed + GLOBAL_SPEED_DELTA
            } else {
                MAX_GLOBAL_SPEED
            };
        }
        if input.down_down {
            self.global_speed = if self.global_speed >= GLOBAL_SPEED_DELTA {
                self.global_speed - GLOBAL_SPEED_DELTA
            } else {
                0
            };
        }
        proof {
            vstd::std_specs::vec::axiom_spec_len(&self.messages);
            assert forall|m: int|
                0 <= m < self.messages@.len() implies {
                let m0 = pre.messages@[m];
                let m1 = #[trigger] self.messages@[m];
                m1.id@ == m0.id@ && m1.src == m0.src && m1.dest == m0.dest && m1.pos.in_range()
                    && m1.time_delivered == m0.time_delivered && m1.last_color_change
                    == m0.last_color_change
            } by {
                let mu = m as usize;
                assert(mu as int == m);
                assert(0 <= mu < self.messages@.len());
                if self.messages@[mu as int] == pre.messages@[mu as int] {
                    assert(pre.messages@[m].pos.in_range());
                } else {
                    assert(crate::message::spec_msg_jumped(
                        pre.messages@[mu as int],
                        self.messages@[mu as int],
                        pre.global_speed,
                        pre.current_time,
                        if spec_kb_current_time(pre, *input) >= pre.current_time {
                            (spec_kb_current_time(pre, *input) - pre.current_time) as u64
                        } else {
                            0u64
                        },
                        pre.nodes@[pre.messages@[mu as int].dest as int].pos,
                    ));
                }
            }
            lemma_core_wf_frame(pre, *self);
            assert forall|q: int|
                0 <= q < self.event_queue@.len() implies self.event_wf(
                (#[trigger] self.event_queue@[q]).event) by {
                assert(pre.event_wf(pre.event_queue@[q].event));
                lemma_event_wf_frame(pre, *self, self.event_queue@[q].event);
            }
        }
    }

    /// The held left mouse button: it selects the node under the cursor, or
    /// drags the already selected one, and opens the window of a message
    /// under the cursor.
    #[verifier::spinoff_prover]
    fn kb_mouse(&mut self, input: &InputSample)
        requires
            old(self).wf(),
            input.mouse_position.in_range(),
            input.mouse_left_down,
        ensures
            final(self).wf(),
            ({
                let sel0 = old(self).ui_data.selected_node;
                let found = spec_node_at(old(self).nodes@, input.mouse_position);
                let sel_d = if sel0 is None {
                    found
                } else if old(self).has_node(sel0->0@) {
                    sel0
                } else {
                    None::<String>
                };
                let dragging = sel0 is Some && old(self).has_node(sel0->0@);
                let di = old(self).spec_node_index(sel0->0@);
                &&& final(self).nodes@.len() == old(self).nodes@.len()
                &&& (dragging ==> final(self).nodes@ == old(self).nodes@.update(
                    di,
                    (StateNode { pos: final(self).nodes@[di].pos, ..old(self).nodes@[di] }),
                ) && final(self).nodes@[di].pos.x == spec_clip(
                    old(self).nodes@[di].pos.x + input.mouse_position.x
                        - old(self).ui_data.selected_mouse_position.x,
                ) && final(self).nodes@[di].pos.y == spec_clip(
                    old(self).nodes@[di].pos.y + input.mouse_position.y
                        - old(self).ui_data.selected_mouse_position.y,
                ))
                &&& (!dragging ==> final(self).nodes@ == old(self).nodes@)
                &&& final(self).ui_data.selected_node == sel_d
                &&& final(self).ui_data.selected_mouse_position == (if sel0 is Some {
                    if old(self).has_node(sel0->0@) {
                        input.mouse_position
                    } else {
                        old(self).ui_data.selected_mouse_position
                    }
                } else if found is Some {
                    input.mouse_position
                } else {
                    old(self).ui_data.selected_mouse_position
                })
                &&& final(self).ui_data.show_msg_windows@ == ({
                    let mhit = spec_msg_at(
                        old(self).travelling_messages@,
                        old(self).messages@,
                        input.mouse_position,
                    );
                    if mhit is Some {
                        spec_flag_insert(old(self).ui_data.show_msg_windows@, mhit->0)
                    } else {
                        old(self).ui_data.show_msg_windows@
                    }
                })
            }),
            *final(self) == (State {
                nodes: final(self).nodes,
                ui_data: final(self).ui_data,
                ..*old(self)
            }),
            final(self).ui_data == (UIData {
                selected_node: final(self).ui_data.selected_node,
                selected_mouse_position: final(self).ui_data.selected_mouse_position,
                show_msg_windows: final(self).ui_data.show_msg_windows,
                ..old(self).ui_data
            }),
    {
        let ghost pre = *old(self);
        let sel_name: Option<String> = match &self.ui_data.selected_node {
            None => None,
            Some(n) => Some(n.clone()),
        };
        match sel_name {
            None => {
                match self.get_node_by_mouse_pos(input.mouse_position) {
                    Some(node_name) => {
                        self.ui_data.selected_node = Some(node_name);
                        self.ui_data.selected_mouse_position = input.mouse_position;
                    },
                    None => {},
                }
            },
            Some(n) => {
                match self.find_node(&n) {
                    Some(i) => {
                        proof {
                            lemma_node_index_unique(*self, n@, i as int);
                        }
                        let px = clip_coord(
                            self.nodes[i].pos.x + (input.mouse_position.x
                                - self.ui_data.selected_mouse_position.x),
                        );
                        let py = clip_coord(
                            self.nodes[i].pos.y + (input.mouse_position.y
                                - self.ui_data.selected_mouse_position.y),
                        );
                        let nd = self.node_mut(i);
                        nd.pos = Point { x: px, y: py };
                        self.ui_data.selected_mouse_position = input.mouse_position;
                    },
                    None => {
                        self.ui_data.selected_node = None;
                    },
                }
            },
        }
        match self.get_msg_by_mouse_pos(input.mouse_position) {
            Some(msg_id) => {
                flag_set(&mut self.ui_data.show_msg_windows, msg_id);
            },
            None => {},
        }
        proof {
            lemma_core_wf_frame(pre, *self);
            assert forall|q: int|
                0 <= q < self.event_queue@.len() implies self.event_wf(
                (#[trigger] self.event_queue@[q]).event) by {
                assert(pre.event_wf(pre.event_queue@[q].event));
                lemma_event_wf_frame(pre, *self, self.event_queue@[q].event);
            }
        }
    }

    /// Applies one frame of input: space toggles pause; the right key scrubs
    /// the clock to just before the next queued event, jumping travelling
    /// messages as far as they would have moved in the skipped time; the up
    /// and down keys step the replay speed; holding the left mouse button
    /// selects and drags a node and opens the window of a message under the
    /// cursor; a quick click opens the selected node's window; with timers
    /// shown, the hovered timer is looked up.
    #[verifier::spinoff_prover]
    pub fn check_keyboard_events(&mut self, input: &InputSample, slot_offsets: &Vec<Point>)
        requires
            old(self).wf(),
            input.mouse_position.in_range(),
            slot_offsets@.len() == TIMERS_MAX_NUMBER,
        ensures
            final(self).wf(),
            spec_kb_applied(*old(self), *final(self), *input, slot_offsets@),
    {
        self.kb_clock(input);
        if input.mouse_left_down {
            self.kb_mouse(input);
        }
        if input.mouse_left_pressed {
            self.ui_data.last_clicked = self.current_time as i64;
        }
        if input.mouse_left_released {
            if self.current_time as i64 - self.ui_data.last_clicked <= SINGLE_CLICK_DELAY as i64 {
                let sel_name: Option<String> = match &self.ui_data.selected_node {
                    None => None,
                    Some(n) => Some(n.clone()),
                };
                match sel_name {
                    Some(n) => {
                        flag_set(&mut self.ui_data.show_node_windows, n);
                    },
                    None => {},
                }
            }
            self.ui_data.selected_node = None;
        }
        let ghost mid = *self;
        if self.ui_data.show_timers && self.nodes.len() > 0 {
            proof {
                assert(self.nodes@.skip(0) =~= self.nodes@);
            }
            let h = self.hover_from(0, input.mouse_position, slot_offsets);
            self.ui_data.hovered_timer = h;
        }
        proof {
            lemma_core_wf_frame(mid, *self);
            assert forall|q: int|
                0 <= q < self.event_queue@.len() implies self.event_wf(
                (#[trigger] self.event_queue@[q]).event) by {
                assert(mid.event_wf(mid.event_queue@[q].event));
                lemma_event_wf_frame(mid, *self, self.event_queue@[q].event);
            }
        }
    }

    /// Advances the whole replay by one frame at real time `now`: input is
    /// applied first; then, unless paused, the clock advances by the elapsed
    /// real time times the replay speed (capped at the working range), every
    /// queued event whose time has come is processed in order, every node's
    /// timers take or release their slots, and every travelling message moves
    /// one step, deposits its copies at its destination when delivered, and
    /// leaves the travelling list when delivered or dropped. While paused,
    /// only input is applied and the clock stands still.
    #[verifier::spinoff_prover]
    pub fn update(&mut self, now: u64, input: &InputSample, slot_offsets: &Vec<Point>)
        requires
            old(self).wf(),
            now <= TIME_LIMIT,
            now >= old(self).last_updated,
            input.mouse_position.in_range(),
            slot_offsets@.len() == TIMERS_MAX_NUMBER,
        ensures
            final(self).wf(),
            final(self).last_updated == now,
            final(self).paused == spec_kb_paused(*old(self), *input),
            final(self).global_speed == spec_kb_speed(*old(self), *input),
            final(self).current_time == if spec_kb_paused(*old(self), *input) {
                spec_kb_current_time(*old(self), *input)
            } else {
                spec_advanced_clock(
                    spec_kb_current_time(*old(self), *input),
                    old(self).last_updated,
                    now,
                    spec_kb_speed(*old(self), *input),
                )
            },
            spec_kb_paused(*old(self), *input) ==> final(self).event_queue@
                == old(self).event_queue@,
            !spec_kb_paused(*old(self), *input) ==> exists|k: int|
                0 <= k <= old(self).event_queue@.len()
                    && final(self).event_queue@ == old(self).event_queue@.skip(k)
                    && (forall|i: int|
                    0 <= i < k
                        ==> (#[trigger] old(self).event_queue@[i]).time
                        <= final(self).current_time)
                    && (k < old(self).event_queue@.len()
                    ==> old(self).event_queue@[k].time > final(self).current_time),
            !spec_kb_paused(*old(self), *input) ==> forall|j: int, t: int|
                0 <= j < final(self).nodes@.len() && 0 <= t
                    < final(self).nodes@[j].timers@.len()
                    ==> final(self).current_time
                    < (#[trigger] final(self).nodes@[j].timers@[t]).time_removed,
            !spec_kb_paused(*old(self), *input) ==> forall|i: int|
                0 <= i < final(self).travelling_messages@.len() ==> {
                    let st = final(self).messages@[(#[trigger] final(self).travelling_messages@[i]) as int].status;
                    st != MessageStatus::Delivered && st != MessageStatus::Dropped
                },
            spec_kb_paused(*old(self), *input) ==> exists|s1: State|
                #[trigger] spec_kb_applied(*old(self), s1, *input, slot_offsets@) && *final(self)
                    == (State { last_updated: now, ..s1 }),
            !spec_kb_paused(*old(self), *input) ==> exists|
                s1: State,
                s2: State,
                s3: State,
                s4: State,
                k: int,
            |
                #![trigger spec_kb_applied(*old(self), s1, *input, slot_offsets@), spec_timers_passed(s3, s4, input.mouse_position, slot_offsets@), s2.event_queue@.skip(k)]
                {
                    &&& spec_kb_applied(*old(self), s1, *input, slot_offsets@)
                    &&& s2 == (State { current_time: s2.current_time, last_updated: now, ..s1 })
                    &&& s2.current_time == spec_advanced_clock(
                        s1.current_time,
                        s1.last_updated,
                        now,
                        s1.global_speed,
                    )
                    &&& 0 <= k <= s2.event_queue@.len()
                    &&& (exists|trace: Seq<State>|
                        #[trigger] spec_drain_trace(trace) && trace.len() == k + 1 && trace[0]
                            == s2 && trace[trace.len() - 1] == s3)
                    &&& s3.event_queue@ == s2.event_queue@.skip(k)
                    &&& (k < s2.event_queue@.len() ==> s2.event_queue@[k].time
                        > s2.current_time)
                    &&& spec_timers_passed(s3, s4, input.mouse_position, slot_offsets@)
                    &&& spec_travel_passed(s4, *final(self), now)
                },
    {
        let ghost pre0 = *old(self);
        self.check_keyboard_events(input, slot_offsets);
        let ghost s1 = *self;
        if self.paused {
            self.last_updated = now;
            proof {
                lemma_core_wf_frame(*self, *self);
                assert(spec_kb_applied(pre0, s1, *input, slot_offsets@));
                assert(*self == (State { last_updated: now, ..s1 }));
            }
            return ;
        }
        let elapsed: u64 = now - self.last_updated;
        proof {
            assert(elapsed as int * self.global_speed as int <= 0x4000000000000int
                * 1000000000int) by (nonlinear_arith)
                requires 0 <= elapsed <= 0x4000000000000, 0 <= self.global_speed <= 1000000000;
        }
        let prod: u128 = (elapsed as u128) * (self.global_speed as u128) / 1000;
        let new_ct: u64 = if (self.current_time as u128) + prod <= TIME_LIMIT as u128 {
            self.current_time + (prod as u64)
        } else {
            TIME_LIMIT
        };
        self.current_time = new_ct;
        self.last_updated = now;
        let ghost mid = *self;
        proof {
            lemma_core_wf_frame(mid, *self);
            assert forall|q: int|
                0 <= q < self.event_queue@.len() implies self.event_wf(
                (#[trigger] self.event_queue@[q]).event) by {
                assert(mid.event_wf(mid.event_queue@[q].event));
            }
        }
        let ghost q0 = self.event_queue@;
        let ghost k: int = 0;
        let ghost trace: Seq<State> = seq![mid];
        let mut stop = false;
        while !stop
            invariant
                self.wf(),
                0 <= k <= q0.len(),
                self.event_queue@ == q0.skip(k),
                forall|i: int| 0 <= i < k ==> (#[trigger] q0[i]).time <= self.current_time,
                self.current_time == mid.current_time,
                self.last_updated == now,
                self.paused == mid.paused,
                self.global_speed == mid.global_speed,
                stop ==> (k == q0.len() || q0[k].time > self.current_time),
                now <= TIME_LIMIT,
                input.mouse_position.in_range(),
                slot_offsets@.len() == TIMERS_MAX_NUMBER,
                spec_drain_trace(trace),
                trace.len() == k + 1,
                trace[0] == mid,
                trace[trace.len() - 1] == *self,
            decreases q0.len() - k + (if stop { 0int } else { 1int }),
        {
            let ghost pre_pop = *self;
            if self.event_queue.len() == 0 {
                stop = true;
            } else {
                let front_time = self.event_queue[0].time;
                if self.current_time >= front_time {
                    let item = self.event_queue.pop_front().unwrap();
                    let ghost ev = item.event;
                    let ghost g_popped = *self;
                    proof {
                        assert(pre_pop.event_queue@[0] == q0[k]);
                        assert(ev == pre_pop.event_queue@[0].event);
                        assert(pre_pop.event_wf(ev));
                        lemma_event_wf_frame(pre_pop, *self, ev);
                        assert(self.event_queue@ =~= q0.skip(k + 1));
                        assert forall|q: int|
                            0 <= q < self.event_queue@.len() implies self.event_wf(
                            (#[trigger] self.event_queue@[q]).event) by {
                            assert(pre_pop.event_queue@[q + 1] == self.event_queue@[q]);
                            assert(pre_pop.event_wf(pre_pop.event_queue@[q + 1].event));
                            lemma_event_wf_frame(pre_pop, *self, self.event_queue@[q].event);
                        }
                    }
                    let processed = self.process_event(item.time, item.event);
                    proof {
                        assert(processed);
                        assert(g_popped == (State {
                            event_queue: g_popped.event_queue,
                            ..pre_pop
                        }));
                        assert(g_popped.event_queue@ =~= pre_pop.event_queue@.drop_first());
                        assert(spec_event_applied(g_popped, *self,
                            pre_pop.event_queue@[0].event));
                        assert(spec_drain_step(pre_pop, *self));
                        k = k + 1;
                        let old_trace = trace;
                        trace = trace.push(*self);
                        assert forall|w: int|
                            0 <= w < trace.len() - 1 implies spec_drain_step(
                            #[trigger] trace[w],
                            trace[w + 1],
                        ) by {
                            if w < old_trace.len() - 1 {
                                assert(trace[w] == old_trace[w]);
                                assert(trace[w + 1] == old_trace[w + 1]);
                                assert(spec_drain_step(old_trace[w], old_trace[w + 1]));
                            } else {
                                assert(trace[w] == pre_pop);
                                assert(trace[w + 1] == *self);
                            }
                        }
                        assert forall|q: int|
                            0 <= q < self.event_queue@.len() implies self.event_wf(
                            (#[trigger] self.event_queue@[q]).event) by {
                            if Self::spec_local_event_id(self.event_queue@[q].event)
                                is Some && Self::spec_local_event_id(
                                self.event_queue@[q].event,
                            ) == Self::spec_local_event_id(ev) {
                                assert(pre_pop.event_queue@[q + 1] == self.event_queue@[q]);
                                assert(Self::spec_local_event_id(
                                    pre_pop.event_queue@[0].event,
                                ) != Self::spec_local_event_id(
                                    pre_pop.event_queue@[q + 1].event,
                                ));
                                assert(false);
                            }
                        }
                        assert forall|a: int, b: int|
                            0 <= a < b < self.event_queue@.len() && Self::spec_local_event_id(
                                self.event_queue@[a].event,
                            ) is Some && Self::spec_local_event_id(
                                self.event_queue@[b].event,
                            ) is Some implies Self::spec_local_event_id(
                            self.event_queue@[a].event,
                        ) != Self::spec_local_event_id(self.event_queue@[b].event) by {
                            assert(pre_pop.event_queue@[a + 1] == self.event_queue@[a]);
                            assert(pre_pop.event_queue@[b + 1] == self.event_queue@[b]);
                        }
                        assert forall|q: int|
                            0 <= q < self.event_queue@.len() implies (
                        #[trigger] self.event_queue@[q]).time <= TIME_LIMIT by {
                            assert(pre_pop.event_queue@[q + 1] == self.event_queue@[q]);
                        }
                    }
                } else {
                    proof {
                        assert(pre_pop.event_queue@[0] == q0[k]);
                    }
                    stop = true;
                }
            }
        }
        let ghost after_queue = *self;
        let ct = self.current_time;
        let show_timers = self.ui_data.show_timers;
        let mut j: usize = 0;
        while j < self.nodes.len()
            invariant
                self.wf(),
                j <= self.nodes@.len(),
                ct == after_queue.current_time,
                ct <= TIME_LIMIT,
                show_timers == after_queue.ui_data.show_timers,
                self.current_time == ct,
                self.last_updated == now,
                self.paused == after_queue.paused,
                self.global_speed == after_queue.global_speed,
                self.event_queue == after_queue.event_queue,
                self.travelling_messages == after_queue.travelling_messages,
                self.messages == after_queue.messages,
                self.nodes@.len() == after_queue.nodes@.len(),
                *self == (State { nodes: self.nodes, ..after_queue }),
                input.mouse_position.in_range(),
                slot_offsets@.len() == TIMERS_MAX_NUMBER,
                forall|a: int, t: int|
                    0 <= a < j && 0 <= t < self.nodes@[a].timers@.len() ==> ct < (
                    #[trigger] self.nodes@[a].timers@[t]).time_removed,
                forall|a: int| j <= a < self.nodes@.len() ==> (#[trigger] self.nodes@[a])
                    == after_queue.nodes@[a],
                forall|a: int|
                    0 <= a < j ==> {
                        let r = crate::node::spec_process_timers(
                            after_queue.nodes@[a].timers@,
                            after_queue.nodes@[a].free_timer_slots@,
                            after_queue.current_time as int,
                            after_queue.ui_data.show_timers,
                            after_queue.nodes@[a].pos,
                            slot_offsets@,
                            input.mouse_position,
                        );
                        (#[trigger] self.nodes@[a]) == (StateNode {
                            timers: self.nodes@[a].timers,
                            free_timer_slots: self.nodes@[a].free_timer_slots,
                            ..after_queue.nodes@[a]
                        }) && self.nodes@[a].timers@ == r.0 && self.nodes@[a].free_timer_slots@
                            == r.1
                    },
            decreases self.nodes@.len() - j,
        {
            let ghost pre_n = *self;
            let mouse = input.mouse_position;
            let nd = self.node_mut(j);
            nd.update(ct, show_timers, mouse, slot_offsets);
            proof {
                lemma_core_wf_node_update(pre_n, *self, j as int);
                assert forall|q: int|
                    0 <= q < self.event_queue@.len() implies self.event_wf(
                    (#[trigger] self.event_queue@[q]).event) by {
                    assert(pre_n.event_wf(pre_n.event_queue@[q].event));
                    lemma_event_wf_node_update(pre_n, *self, j as int,
                        self.event_queue@[q].event);
                }
                assert forall|a: int, t: int|
                    0 <= a < j + 1 && 0 <= t < self.nodes@[a].timers@.len() implies ct < (
                #[trigger] self.nodes@[a].timers@[t]).time_removed by {
                    if a < j {
                        assert(self.nodes@[a] == pre_n.nodes@[a]);
                    }
                }
                assert(pre_n.nodes@[j as int] == after_queue.nodes@[j as int]);
            }
            j = j + 1;
        }
        proof {
            assert(spec_timers_passed(
                after_queue,
                *self,
                input.mouse_position,
                slot_offsets@,
            ));
        }
        let ghost after_nodes = *self;
        let ghost old_travelling = self.travelling_messages@;
        let mut kept: Vec<usize> = Vec::new();
        let mut t: usize = 0;
        proof {
            assert(old_travelling.take(0) =~= Seq::<usize>::empty());
        }
        while t < self.travelling_messages.len()
            invariant
                self.wf(),
                t <= old_travelling.len(),
                self.travelling_messages@ == old_travelling,
                old_travelling == after_nodes.travelling_messages@,
                forall|a: int|
                    0 <= a < old_travelling.len() ==> (#[trigger] old_travelling[a])
                        < self.messages@.len(),
                forall|a: int, b: int|
                    0 <= a < b < old_travelling.len() ==> old_travelling[a]
                        != old_travelling[b],
                self.current_time == ct,
                ct <= TIME_LIMIT,
                now <= TIME_LIMIT,
                self.last_updated == now,
                self.paused == after_nodes.paused,
                self.global_speed == after_nodes.global_speed,
                self.event_queue == after_nodes.event_queue,
                self.nodes@.len() == after_nodes.nodes@.len(),
                self.messages@.len() == after_nodes.messages@.len(),
                *self == (State { nodes: self.nodes, messages: self.messages, ..after_nodes }),
                forall|a: int, t2: int|
                    0 <= a < self.nodes@.len() && 0 <= t2 < self.nodes@[a].timers@.len() ==> ct < (
                    #[trigger] self.nodes@[a].timers@[t2]).time_removed,
                kept@.len() <= t,
                forall|a: int|
                    0 <= a < kept@.len() ==> exists|w: int|
                        0 <= w < t && old_travelling[w] == (#[trigger] kept@[a]),
                forall|a: int, b: int| 0 <= a < b < kept@.len() ==> kept@[a] != kept@[b],
                forall|a: int|
                    0 <= a < kept@.len() ==> (#[trigger] kept@[a]) < self.messages@.len() && {
                        let st = self.messages@[kept@[a] as int].status;
                        st != MessageStatus::Delivered && st != MessageStatus::Dropped
                    },
                forall|m: usize|
                    0 <= m < self.messages@.len() ==> if old_travelling.take(t as int).contains(
                        m,
                    ) {
                        let m0 = after_nodes.messages@[m as int];
                        crate::message::spec_msg_frame_stepped(
                            m0,
                            #[trigger] self.messages@[m as int],
                            after_nodes.global_speed,
                            after_nodes.current_time,
                            now,
                            after_nodes.nodes@[m0.src as int].pos,
                            after_nodes.nodes@[m0.dest as int].pos,
                            after_nodes.nodes@[m0.src as int].color,
                            after_nodes.nodes@[m0.src as int].id,
                            after_nodes.nodes@[m0.dest as int].id,
                        )
                    } else {
                        self.messages@[m as int] == after_nodes.messages@[m as int]
                    },
                kept@ == spec_kept(old_travelling.take(t as int), self.messages@),
                forall|d: int|
                    0 <= d < self.nodes@.len() ==> (#[trigger] self.nodes@[d]) == (StateNode {
                        messages_received: self.nodes@[d].messages_received,
                        ..after_nodes.nodes@[d]
                    }) && self.nodes@[d].messages_received@
                        == after_nodes.nodes@[d].messages_received@ + spec_deposits(
                        old_travelling.take(t as int),
                        self.messages@,
                        d,
                    ),
            decreases old_travelling.len() - t,
        {
            let mi = self.travelling_messages[t];
            let si = self.messages[mi].src;
            let di = self.messages[mi].dest;
            let src_pos = self.nodes[si].pos;
            let dest_pos = self.nodes[di].pos;
            let src_color = self.nodes[si].color;
            let src_id = self.nodes[si].id;
            let dest_id = self.nodes[di].id;
            let gs = self.global_speed;
            let status: MessageStatus;
            let ghost pre_m = *self;
            {
                let mm = self.message_mut(mi);
                mm.update(gs, ct, now, src_color, dest_pos);
                let ghost v1 = *mm;
                mm.update_status(ct, src_pos, dest_pos, src_id, dest_id);
                status = mm.status;
                proof {
                    assert(self.nodes@ =~= pre_m.nodes@.update(si as int,
                        self.nodes@[si as int]));
                    assert forall|q: int|
                        0 <= q < self.event_queue@.len() implies self.event_wf(
                        (#[trigger] self.event_queue@[q]).event) by {
                        assert(pre_m.event_wf(pre_m.event_queue@[q].event));
                        lemma_event_wf_message_arm(pre_m, *self, si as int, mi as int,
                            self.event_queue@[q].event);
                    }
                    lemma_core_wf_message_arm(pre_m, *self, si as int, mi as int);
                    assert forall|a: int|
                        0 <= a < kept@.len() implies (#[trigger] kept@[a])
                        < self.messages@.len() && {
                        let st = self.messages@[kept@[a] as int].status;
                        st != MessageStatus::Delivered && st != MessageStatus::Dropped
                    } by {
                        let w = choose|w: int|
                            0 <= w < t && old_travelling[w] == (#[trigger] kept@[a]);
                        assert(old_travelling[w] != old_travelling[t as int]);
                        assert(self.messages@[kept@[a] as int]
                            == pre_m.messages@[kept@[a] as int]);
                    }
                    // mi was not stepped before this pass, so its record
                    // still reads as it stood after the timer pass
                    if old_travelling.take(t as int).contains(mi) {
                        let w = choose|w: int|
                            0 <= w < t && (#[trigger] old_travelling.take(t as int)[w]) == mi;
                        assert(old_travelling[w] == old_travelling[t as int]);
                        assert(false);
                    }
                    assert(pre_m.messages@[mi as int] == after_nodes.messages@[mi as int]);
                    assert(pre_m.nodes@[si as int].pos == after_nodes.nodes@[si as int].pos);
                    assert(pre_m.nodes@[di as int].pos == after_nodes.nodes@[di as int].pos);
                    assert(v1 == (StateMessage {
                        pos: self.messages@[mi as int].pos,
                        color: self.messages@[mi as int].color,
                        last_color_change: self.messages@[mi as int].last_color_change,
                        ..after_nodes.messages@[mi as int]
                    }));
                    assert(crate::message::spec_msg_frame_stepped(
                        after_nodes.messages@[mi as int],
                        self.messages@[mi as int],
                        after_nodes.global_speed,
                        after_nodes.current_time,
                        now,
                        after_nodes.nodes@[si as int].pos,
                        after_nodes.nodes@[di as int].pos,
                        after_nodes.nodes@[si as int].color,
                        after_nodes.nodes@[si as int].id,
                        after_nodes.nodes@[di as int].id,
                    ));
                    assert(old_travelling.take(t as int + 1)
                        =~= old_travelling.take(t as int).push(mi));
                    assert forall|m: usize|
                        0 <= m < self.messages@.len() implies (if old_travelling.take(
                        t as int + 1,
                    ).contains(m) {
                        let m0 = after_nodes.messages@[m as int];
                        crate::message::spec_msg_frame_stepped(
                            m0,
                            #[trigger] self.messages@[m as int],
                            after_nodes.global_speed,
                            after_nodes.current_time,
                            now,
                            after_nodes.nodes@[m0.src as int].pos,
                            after_nodes.nodes@[m0.dest as int].pos,
                            after_nodes.nodes@[m0.src as int].color,
                            after_nodes.nodes@[m0.src as int].id,
                            after_nodes.nodes@[m0.dest as int].id,
                        )
                    } else {
                        self.messages@[m as int] == after_nodes.messages@[m as int]
                    }) by {
                        if m != mi {
                            assert(self.messages@[m as int] == pre_m.messages@[m as int]);
                            assert(old_travelling.take(t as int + 1)[t as int] == mi);
                            if old_travelling.take(t as int + 1).contains(m) {
                                let w = choose|w: int|
                                    0 <= w < t + 1 && (#[trigger] old_travelling.take(
                                        t as int + 1,
                                    )[w]) == m;
                                assert(w < t);
                                assert(old_travelling.take(t as int)[w] == m);
                            }
                            if old_travelling.take(t as int).contains(m) {
                                let w = choose|w: int|
                                    0 <= w < t && (#[trigger] old_travelling.take(t as int)[w])
                                        == m;
                                assert(old_travelling.take(t as int + 1)[w] == m);
                            }
                        } else {
                            assert(old_travelling.take(t as int + 1)[t as int] == mi);
                        }
                    }
                    // the kept list and earlier deposits read only already
                    // settled records, which this step left alone
                    assert forall|w: int|
                        0 <= w < old_travelling.take(t as int).len() implies (
                    #[trigger] old_travelling.take(t as int)[w]) < pre_m.messages@.len() by {
                        assert(old_travelling[w] < pre_m.messages@.len());
                    }
                    assert forall|w: int|
                        0 <= w < old_travelling.take(t as int).len() && (
                        #[trigger] old_travelling.take(t as int)[w]) < pre_m.messages@.len() implies self.messages@.len()
                        > old_travelling.take(t as int)[w] && pre_m.messages@[old_travelling.take(
                        t as int,
                    )[w] as int] == self.messages@[old_travelling.take(t as int)[w] as int] by {
                        assert(old_travelling.take(t as int)[w] == old_travelling[w]);
                        assert(old_travelling[w] != old_travelling[t as int]);
                    }
                    lemma_retain_stable(
                        old_travelling.take(t as int),
                        pre_m.messages@,
                        self.messages@,
                        0,
                    );
                    assert forall|d: int|
                        0 <= d < self.nodes@.len() implies (#[trigger] self.nodes@[d])
                        == (StateNode {
                        messages_received: self.nodes@[d].messages_received,
                        ..after_nodes.nodes@[d]
                    }) && self.nodes@[d].messages_received@
                        == after_nodes.nodes@[d].messages_received@ + spec_deposits(
                        old_travelling.take(t as int),
                        self.messages@,
                        d,
                    ) by {
                        lemma_retain_stable(
                            old_travelling.take(t as int),
                            pre_m.messages@,
                            self.messages@,
                            d,
                        );
                    }
                }
            }
            proof {
                assert(old_travelling.take(t as int + 1).drop_last() =~= old_travelling.take(
                    t as int));
                assert(old_travelling.take(t as int + 1).last() == mi);
            }
            if status == MessageStatus::Delivered {
                let msg_id = self.messages[mi].id.clone();
                let copies = self.messages[mi].copies_received;
                let ghost pre_d = *self;
                self.deliver_copies(di, &msg_id, copies);
                proof {
                    assert forall|a: int, t2: int|
                        0 <= a < self.nodes@.len() && 0 <= t2 < self.nodes@[a].timers@.len() implies ct
                        < (#[trigger] self.nodes@[a].timers@[t2]).time_removed by {
                        if a != di {
                            assert(self.nodes@[a] == pre_d.nodes@[a]);
                        } else {
                            assert(self.nodes@[a].timers@ == pre_d.nodes@[a].timers@);
                        }
                    }
                    assert(kept@ =~= spec_kept(old_travelling.take(t as int + 1),
                        self.messages@));
                    assert forall|d: int|
                        0 <= d < self.nodes@.len() implies (#[trigger] self.nodes@[d])
                        == (StateNode {
                        messages_received: self.nodes@[d].messages_received,
                        ..after_nodes.nodes@[d]
                    }) && self.nodes@[d].messages_received@
                        == after_nodes.nodes@[d].messages_received@ + spec_deposits(
                        old_travelling.take(t as int + 1),
                        self.messages@,
                        d,
                    ) by {
                        if d == di as int {
                            assert(self.nodes@[d].messages_received@
                                == pre_d.nodes@[d].messages_received@ + Seq::new(
                                copies as nat,
                                |x: int| msg_id,
                            ));
                            assert(Seq::new(copies as nat, |x: int| msg_id) =~= Seq::new(
                                self.messages@[mi as int].copies_received as nat,
                                |x: int| self.messages@[mi as int].id,
                            ));
                            assert(self.nodes@[d].messages_received@
                                =~= after_nodes.nodes@[d].messages_received@ + spec_deposits(
                                old_travelling.take(t as int + 1),
                                self.messages@,
                                d,
                            ));
                        } else {
                            assert(self.nodes@[d] == pre_d.nodes@[d]);
                            assert(self.nodes@[d].messages_received@
                                =~= after_nodes.nodes@[d].messages_received@ + spec_deposits(
                                old_travelling.take(t as int + 1),
                                self.messages@,
                                d,
                            ));
                        }
                    }
                }
            } else if status == MessageStatus::Dropped {
                proof {
                    assert(kept@ =~= spec_kept(old_travelling.take(t as int + 1),
                        self.messages@));
                    assert forall|d: int|
                        0 <= d < self.nodes@.len() implies (#[trigger] self.nodes@[d])
                        == (StateNode {
                        messages_received: self.nodes@[d].messages_received,
                        ..after_nodes.nodes@[d]
                    }) && self.nodes@[d].messages_received@
                        == after_nodes.nodes@[d].messages_received@ + spec_deposits(
                        old_travelling.take(t as int + 1),
                        self.messages@,
                        d,
                    ) by {
                        assert(self.nodes@[d].messages_received@
                            =~= after_nodes.nodes@[d].messages_received@ + spec_deposits(
                            old_travelling.take(t as int + 1),
                            self.messages@,
                            d,
                        ));
                    }
                }
            } else {
                kept.push(mi);
                proof {
                    assert(old_travelling[t as int] == mi);
                    assert forall|a: int|
                        0 <= a < kept@.len() implies exists|w: int|
                        0 <= w < t + 1 && old_travelling[w] == (#[trigger] kept@[a]) by {
                        if a < kept@.len() - 1 {
                            let w = choose|w: int|
                                0 <= w < t && old_travelling[w] == kept@[a];
                            assert(0 <= w < t + 1 && old_travelling[w] == kept@[a]);
                        } else {
                            assert(old_travelling[t as int] == kept@[a]);
                        }
                    }
                    assert forall|a: int, b: int|
                        0 <= a < b < kept@.len() implies kept@[a] != kept@[b] by {
                        if b == kept@.len() - 1 {
                            let w = choose|w: int|
                                0 <= w < t && old_travelling[w] == kept@[a];
                            assert(old_travelling[w] != old_travelling[t as int]);
                        }
                    }
                    assert(kept@ =~= spec_kept(old_travelling.take(t as int + 1),
                        self.messages@));
                    assert forall|d: int|
                        0 <= d < self.nodes@.len() implies (#[trigger] self.nodes@[d])
                        == (StateNode {
                        messages_received: self.nodes@[d].messages_received,
                        ..after_nodes.nodes@[d]
                    }) && self.nodes@[d].messages_received@
                        == after_nodes.nodes@[d].messages_received@ + spec_deposits(
                        old_travelling.take(t as int + 1),
                        self.messages@,
                        d,
                    ) by {
                        assert(self.nodes@[d].messages_received@
                            =~= after_nodes.nodes@[d].messages_received@ + spec_deposits(
                            old_travelling.take(t as int + 1),
                            self.messages@,
                            d,
                        ));
                    }
                }
            }
            t = t + 1;
        }
        self.travelling_messages = kept;
        proof {
            lemma_core_wf_frame(*self, *self);
            assert(old_travelling.take(old_travelling.len() as int) =~= old_travelling);
            assert(spec_travel_passed(after_nodes, *self, now));
            assert(spec_kb_applied(pre0, s1, *input, slot_offsets@));
            assert(mid == (State { current_time: mid.current_time, last_updated: now, ..s1 }));
            assert(spec_drain_trace(trace) && trace.len() == k + 1 && trace[0] == mid
                && trace[trace.len() - 1] == after_queue);
            assert(after_queue.event_queue@ == mid.event_queue@.skip(k));
        }
    }

    /// Hands a delivered message's id to its destination node once per
    /// recorded copy.
    fn deliver_copies(&mut self, di: usize, msg_id: &String, copies: u64)
        requires
            old(self).wf(),
            di < old(self).nodes@.len(),
        ensures
            final(self).wf(),
            final(self).nodes@.len() == old(self).nodes@.len(),
            final(self).nodes@ == old(self).nodes@.update(di as int, final(self).nodes@[di as int]),
            final(self).nodes@[di as int] == (StateNode {
                messages_received: final(self).nodes@[di as int].messages_received,
                ..old(self).nodes@[di as int]
            }),
            final(self).nodes@[di as int].messages_received@
                == old(self).nodes@[di as int].messages_received@ + Seq::new(
                copies as nat,
                |x: int| *msg_id,
            ),
            *final(self) == (State { nodes: final(self).nodes, ..*old(self) }),
    {
        let ghost pre = *old(self);
        let mut c: u64 = 0;
        proof {
            assert(pre.nodes@ =~= pre.nodes@.update(di as int, pre.nodes@[di as int]));
            assert(pre.nodes@[di as int].messages_received@ + Seq::new(0nat, |x: int| *msg_id)
                =~= pre.nodes@[di as int].messages_received@);
        }
        while c < copies
            invariant
                self.wf(),
                c <= copies,
                di < self.nodes@.len(),
                self.nodes@.len() == pre.nodes@.len(),
                self.nodes@ == pre.nodes@.update(di as int, self.nodes@[di as int]),
                self.nodes@[di as int] == (StateNode {
                    messages_received: self.nodes@[di as int].messages_received,
                    ..pre.nodes@[di as int]
                }),
                self.nodes@[di as int].messages_received@
                    == pre.nodes@[di as int].messages_received@ + Seq::new(
                    c as nat,
                    |x: int| *msg_id,
                ),
                *self == (State { nodes: self.nodes, ..pre }),
            decreases copies - c,
        {
            let ghost pre_c = *self;
            let idc = msg_id.clone();
            let nd = self.node_mut(di);
            nd.messages_received.push(idc);
            proof {
                assert(self.nodes@ =~= pre.nodes@.update(di as int, self.nodes@[di as int]));
                assert(self.nodes@[di as int].messages_received@
                    =~= pre.nodes@[di as int].messages_received@ + Seq::new(
                    (c + 1) as nat,
                    |x: int| *msg_id,
                ));
                lemma_core_wf_node_update(pre_c, *self, di as int);
                assert forall|q: int|
                    0 <= q < self.event_queue@.len() implies self.event_wf(
                    (#[trigger] self.event_queue@[q]).event) by {
                    assert(pre_c.event_wf(pre_c.event_queue@[q].event));
                    lemma_event_wf_node_update(pre_c, *self, di as int,
                        self.event_queue@[q].event);
                }
            }
            c = c + 1;
        }
    }

    /// Moves each node named in `names` (from `from` on) to the matching
    /// entry of `positions`.
    fn place_nodes(&mut self, names: &Vec<String>, positions: &Vec<Point>, from: usize)
        requires
            old(self).wf(),
            from <= names@.len(),
            names@.len() == positions@.len(),
            forall|k: int| 0 <= k < positions@.len() ==> (#[trigger] positions@[k]).in_range(),
            forall|k: int| from <= k < names@.len() ==> old(self).has_node((#[trigger] names@[k])@),
            forall|a: int, b: int|
                0 <= a < b < names@.len() ==> (#[trigger] names@[a])@ != (#[trigger] names@[b])@,
        ensures
            final(self).wf(),
            final(self).nodes@.len() == old(self).nodes@.len(),
            forall|j: int|
                0 <= j < final(self).nodes@.len() ==> (#[trigger] final(self).nodes@[j])
                    == (StateNode { pos: final(self).nodes@[j].pos, ..old(self).nodes@[j] }),
            forall|j: int, k: int|
                0 <= j < final(self).nodes@.len() && from <= k < names@.len() && (
                #[trigger] old(self).nodes@[j]).name@ == (#[trigger] names@[k])@ ==> final(self).nodes@[j].pos == positions@[k],
            forall|j: int|
                0 <= j < final(self).nodes@.len() && (forall|k: int|
                    from <= k < names@.len() ==> (#[trigger] names@[k])@ != old(self).nodes@[j].name@) ==> (#[trigger] final(self).nodes@[j]).pos == old(self).nodes@[j].pos,
            *final(self) == (State { nodes: final(self).nodes, ..*old(self) }),
        decreases names@.len() - from,
    {
        if from < names.len() {
            let ghost pre = *old(self);
            let i = self.find_node(&names[from]).unwrap();
            proof {
                lemma_node_index_unique(*self, names@[from as int]@, i as int);
            }
            let p = positions[from];
            {
                let nd = self.node_mut(i);
                nd.pos = p;
            }
            proof {
                lemma_core_wf_node_update(pre, *self, i as int);
                assert forall|q: int|
                    0 <= q < self.event_queue@.len() implies self.event_wf(
                    (#[trigger] self.event_queue@[q]).event) by {
                    assert(pre.event_wf(pre.event_queue@[q].event));
                    lemma_event_wf_node_update(pre, *self, i as int, self.event_queue@[q].event);
                }
                assert forall|k: int|
                    from + 1 <= k < names@.len() implies self.has_node(
                    (#[trigger] names@[k])@) by {
                    lemma_has_node_update(pre, *self, i as int, names@[k]@);
                }
            }
            let ghost mid = *self;
            self.place_nodes(names, positions, from + 1);
            proof {
                assert forall|j: int, k: int|
                    0 <= j < self.nodes@.len() && from <= k < names@.len() && (
                    #[trigger] pre.nodes@[j]).name@ == (#[trigger] names@[k])@ implies self.nodes@[j].pos
                    == positions@[k] by {
                    if k == from {
                        assert(j == i as int);
                        assert(mid.nodes@[j].pos == positions@[k]);
                        assert(forall|k2: int|
                            from + 1 <= k2 < names@.len() ==> (#[trigger] names@[k2])@
                                != mid.nodes@[j].name@);
                    } else {
                        assert(mid.nodes@[j].name@ == pre.nodes@[j].name@);
                    }
                }
            }
        }
    }

    /// Places the named nodes on the given ring positions, one each.
    pub fn make_node_circle(&mut self, nodes: Vec<String>, positions: Vec<Point>)
        requires
            old(self).wf(),
            nodes@.len() == positions@.len(),
            forall|k: int| 0 <= k < positions@.len() ==> (#[trigger] positions@[k]).in_range(),
            forall|k: int| 0 <= k < nodes@.len() ==> old(self).has_node((#[trigger] nodes@[k])@),
            forall|a: int, b: int|
                0 <= a < b < nodes@.len() ==> (#[trigger] nodes@[a])@ != (#[trigger] nodes@[b])@,
        ensures
            final(self).wf(),
            final(self).nodes@.len() == old(self).nodes@.len(),
            forall|j: int|
                0 <= j < final(self).nodes@.len() ==> (#[trigger] final(self).nodes@[j])
                    == (StateNode { pos: final(self).nodes@[j].pos, ..old(self).nodes@[j] }),
            forall|j: int, k: int|
                0 <= j < final(self).nodes@.len() && 0 <= k < nodes@.len() && (
                #[trigger] old(self).nodes@[j]).name@ == (#[trigger] nodes@[k])@ ==> final(self).nodes@[j].pos == positions@[k],
            forall|j: int|
                0 <= j < final(self).nodes@.len() && (forall|k: int|
                    0 <= k < nodes@.len() ==> (#[trigger] nodes@[k])@ != old(self).nodes@[j].name@) ==> (#[trigger] final(self).nodes@[j]).pos == old(self).nodes@[j].pos,
    {
        self.place_nodes(&nodes, &positions, 0);
    }

    /// Lays the two partition groups out on the given position rings, when a
    /// partition is in force.
    pub fn partition_nodes(&mut self, left_positions: Vec<Point>, right_positions: Vec<Point>)
        requires
            old(self).wf(),
            old(self).partition matches Some(g) ==> {
                &&& g.0@.len() == left_positions@.len()
                &&& g.1@.len() == right_positions@.len()
                &&& forall|k: int|
                    0 <= k < left_positions@.len() ==> (#[trigger] left_positions@[k]).in_range()
                &&& forall|k: int|
                    0 <= k < right_positions@.len() ==> (#[trigger] right_positions@[k]).in_range()
                &&& forall|k: int|
                    0 <= k < g.0@.len() ==> old(self).has_node((#[trigger] g.0@[k])@)
                &&& forall|k: int|
                    0 <= k < g.1@.len() ==> old(self).has_node((#[trigger] g.1@[k])@)
                &&& forall|a: int, b: int|
                    0 <= a < b < g.0@.len() ==> (#[trigger] g.0@[a])@ != (#[trigger] g.0@[b])@
                &&& forall|a: int, b: int|
                    0 <= a < b < g.1@.len() ==> (#[trigger] g.1@[a])@ != (#[trigger] g.1@[b])@
            },
        ensures
            final(self).wf(),
            old(self).partition is None ==> *final(self) == *old(self),
            final(self).nodes@.len() == old(self).nodes@.len(),
            forall|j: int|
                0 <= j < final(self).nodes@.len() ==> (#[trigger] final(self).nodes@[j])
                    == (StateNode { pos: final(self).nodes@[j].pos, ..old(self).nodes@[j] }),
            old(self).partition matches Some(g) ==> ({
                &&& forall|j: int, k: int|
                    0 <= j < final(self).nodes@.len() && 0 <= k < g.1@.len() && (
                    #[trigger] old(self).nodes@[j]).name@ == (#[trigger] g.1@[k])@ ==> final(self).nodes@[j].pos == right_positions@[k]
                &&& forall|j: int, k: int|
                    0 <= j < final(self).nodes@.len() && 0 <= k < g.0@.len() && (
                    #[trigger] old(self).nodes@[j]).name@ == (#[trigger] g.0@[k])@ && (forall|
                        w: int,
                    |
                        0 <= w < g.1@.len() ==> (#[trigger] g.1@[w])@ != old(self).nodes@[j].name@) ==> final(self).nodes@[j].pos == left_positions@[k]
                &&& forall|j: int|
                    0 <= j < final(self).nodes@.len() && (forall|k: int|
                        0 <= k < g.0@.len() ==> (#[trigger] g.0@[k])@ != old(self).nodes@[j].name@) && (forall|k: int|
                        0 <= k < g.1@.len() ==> (#[trigger] g.1@[k])@ != old(self).nodes@[j].name@) ==> (#[trigger] final(self).nodes@[j]).pos == old(self).nodes@[j].pos
            }),
            *final(self) == (State { nodes: final(self).nodes, ..*old(self) }),
    {
        let groups: Option<(Vec<String>, Vec<String>)> = match &self.partition {
            None => None,
            Some(g) => Some((clone_names(&g.0), clone_names(&g.1))),
        };
        match groups {
            None => {},
            Some((g1, g2)) => {
                let ghost pre = *old(self);
                self.place_nodes(&g1, &left_positions, 0);
                proof {
                    assert forall|k: int|
                        0 <= k < g2@.len() implies self.has_node((#[trigger] g2@[k])@) by {
                        let j = choose|j: int|
                            0 <= j < pre.nodes@.len() && (#[trigger] pre.nodes@[j]).name@
                                == g2@[k]@;
                        assert(self.nodes@[j].name@ == g2@[k]@);
                    }
                }
                let ghost mid = *self;
                self.place_nodes(&g2, &right_positions, 0);
                proof {
                    assert forall|j: int|
                        0 <= j < self.nodes@.len() implies (#[trigger] self.nodes@[j])
                        == (StateNode { pos: self.nodes@[j].pos, ..pre.nodes@[j] }) by {
                        assert(mid.nodes@[j] == (StateNode { pos: mid.nodes@[j].pos, ..pre.nodes@[j] }));
                        assert(self.nodes@[j] == (StateNode { pos: self.nodes@[j].pos, ..mid.nodes@[j] }));
                    }
                    assert forall|j: int, k: int|
                        0 <= j < self.nodes@.len() && 0 <= k < g2@.len() && (
                        #[trigger] pre.nodes@[j]).name@ == (#[trigger] g2@[k])@ implies self.nodes@[j].pos
                        == right_positions@[k] by {
                        assert(mid.nodes@[j].name@ == pre.nodes@[j].name@);
                    }
                    assert forall|j: int, k: int|
                        0 <= j < self.nodes@.len() && 0 <= k < g1@.len() && (
                        #[trigger] pre.nodes@[j]).name@ == (#[trigger] g1@[k])@ && (forall|w: int|
                        0 <= w < g2@.len() ==> (#[trigger] g2@[w])@ != pre.nodes@[j].name@) implies self.nodes@[j].pos
                        == left_positions@[k] by {
                        assert(mid.nodes@[j].pos == left_positions@[k]);
                        assert(forall|w: int|
                            0 <= w < g2@.len() ==> (#[trigger] g2@[w])@ != mid.nodes@[j].name@);
                    }
                    assert forall|j: int|
                        0 <= j < self.nodes@.len() && (forall|k: int|
                            0 <= k < g1@.len() ==> (#[trigger] g1@[k])@ != pre.nodes@[j].name@)
                            && (forall|k: int|
                            0 <= k < g2@.len() ==> (#[trigger] g2@[k])@
                                != pre.nodes@[j].name@) implies (
                    #[trigger] self.nodes@[j]).pos == pre.nodes@[j].pos by {
                        assert(mid.nodes@[j].pos == pre.nodes@[j].pos);
                        assert(forall|w: int|
                            0 <= w < g2@.len() ==> (#[trigger] g2@[w])@ != mid.nodes@[j].name@);
                    }
                }
            },
        }
    }

    /// One row per disabled link for the network window: the link's ends and
    /// whether the opposite direction is disabled too.
    pub fn network_link_rows(&self) -> (r: Vec<(String, String, bool)>)
        ensures
            r@.len() == self.disabled_links@.len(),
            forall|i: int|
                0 <= i < r@.len() ==> {
                    let l = self.disabled_links@[i];
                    let row = #[trigger] r@[i];
                    row.0@ == l.0@ && row.1@ == l.1@ && row.2 == spec_contains_link(
                        self.disabled_links@,
                        l.1@,
                        l.0@,
                    )
                },
    {
        let mut rows: Vec<(String, String, bool)> = Vec::new();
        let mut i: usize = 0;
        while i < self.disabled_links.len()
            invariant
                i <= self.disabled_links@.len(),
                rows@.len() == i,
                forall|a: int|
                    0 <= a < rows@.len() ==> {
                        let l = self.disabled_links@[a];
                        let row = #[trigger] rows@[a];
                        row.0@ == l.0@ && row.1@ == l.1@ && row.2 == spec_contains_link(
                            self.disabled_links@,
                            l.1@,
                            l.0@,
                        )
                    },
            decreases self.disabled_links@.len() - i,
        {
            let from = self.disabled_links[i].0.clone();
            let to = self.disabled_links[i].1.clone();
            let both = contains_link(&self.disabled_links, &to, &from);
            rows.push((from, to, both));
            i = i + 1;
        }
        rows
    }

    /// A mutable borrow of the node at `i`.
    fn node_mut(&mut self, i: usize) -> (r: &mut StateNode)
        requires
            i < old(self).nodes@.len(),
        ensures
            *r == old(self).nodes@[i as int],
            final(self).nodes@ == old(self).nodes@.update(i as int, *final(r)),
            *final(self) == (State { nodes: final(self).nodes, ..*old(self) }),
    {
        &mut self.nodes[i]
    }

    /// A mutable borrow of the message at `i`.
    fn message_mut(&mut self, i: usize) -> (r: &mut StateMessage)
        requires
            i < old(self).messages@.len(),
        ensures
            *r == old(self).messages@[i as int],
            final(self).messages@ == old(self).messages@.update(i as int, *final(r)),
            *final(self) == (State { messages: final(self).messages, ..*old(self) }),
    {
        &mut self.messages[i]
    }
}

/// Some node of `g2` at position `from_j` or later is linked with `n` in
/// either direction as `(a, b)`.
pub open spec fn spec_row_pairs(
    n: Seq<char>,
    g2: Seq<String>,
    from_j: int,
    a: Seq<char>,
    b: Seq<char>,
) -> bool {
    exists|y: int|
        from_j <= y < g2.len() && ((n == a && (#[trigger] g2[y])@ == b) || (g2[y]@ == a && n == b))
}

/// Some node of `g1` at position `from_i` or later is paired with some node
/// of `g2` as `(a, b)`, in either direction.
pub open spec fn spec_pairs_from(
    g1: Seq<String>,
    g2: Seq<String>,
    from_i: int,
    a: Seq<char>,
    b: Seq<char>,
) -> bool {
    exists|x: int, y: int|
        from_i <= x < g1.len() && 0 <= y < g2.len() && (((#[trigger] g1[x])@ == a && (
        #[trigger] g2[y])@ == b) || (g2[y]@ == a && g1[x]@ == b))
}

/// The name of the first node of `nodes` whose circle is under the mouse.
pub open spec fn spec_node_at(nodes: Seq<StateNode>, mouse: Point) -> Option<String>
    decreases nodes.len(),
{
    if nodes.len() == 0 {
        None::<String>
    } else if spec_dist_sq(mouse, nodes[0].pos) < NODE_RADIUS * NODE_RADIUS {
        Some(nodes[0].name)
    } else {
        spec_node_at(nodes.drop_first(), mouse)
    }
}

/// The id of the first message of `trav` (indices into `msgs`) whose dot is
/// under the mouse.
pub open spec fn spec_msg_at(trav: Seq<usize>, msgs: Seq<StateMessage>, mouse: Point) -> Option<
    String>
    decreases trav.len(),
{
    if trav.len() == 0 {
        None::<String>
    } else if spec_dist_sq(mouse, msgs[trav[0] as int].pos) < MESSAGE_RADIUS * MESSAGE_RADIUS {
        Some(msgs[trav[0] as int].id)
    } else {
        spec_msg_at(trav.drop_first(), msgs, mouse)
    }
}

/// `flags` with the entry for `key` set, added at the end when absent.
pub open spec fn spec_flag_insert(flags: Seq<(String, bool)>, key: String) -> Seq<(String, bool)>
    decreases flags.len(),
{
    if flags.len() == 0 {
        seq![(key, true)]
    } else if flags[0].0@ == key@ {
        seq![(flags[0].0, true)] + flags.drop_first()
    } else {
        seq![flags[0]] + spec_flag_insert(flags.drop_first(), key)
    }
}

/// Sets the flag for `key` in the suffix of `flags` from `from` on, adding an
/// entry at the end when the suffix has none.
fn flag_set_from(flags: &mut Vec<(String, bool)>, key: String, from: usize)
    requires
        from <= old(flags)@.len(),
    ensures
        final(flags)@ == old(flags)@.take(from as int) + spec_flag_insert(
            old(flags)@.skip(from as int),
            key,
        ),
    decreases old(flags)@.len() - from,
{
    if from < flags.len() {
        if flags[from].0.eq(&key) {
            let k0 = flags[from].0.clone();
            flags[from] = (k0, true);
            proof {
                assert(flags@ =~= old(flags)@.take(from as int) + (seq![
                    (old(flags)@[from as int].0, true),
                ] + old(flags)@.skip(from as int).drop_first()));
                assert(old(flags)@.skip(from as int)[0] == old(flags)@[from as int]);
            }
        } else {
            let ghost pre = flags@;
            flag_set_from(flags, key, from + 1);
            proof {
                assert(pre.skip(from as int)[0] == pre[from as int]);
                assert(pre.skip(from as int).drop_first() =~= pre.skip(from as int + 1));
                assert(flags@ =~= pre.take(from as int) + (seq![pre[from as int]]
                    + spec_flag_insert(pre.skip(from as int + 1), key)));
            }
        }
    } else {
        let ghost gkey = key;
        flags.push((key, true));
        proof {
            assert(old(flags)@.skip(from as int) =~= Seq::<(String, bool)>::empty());
            assert(flags@ =~= old(flags)@.take(from as int) + seq![(gkey, true)]);
        }
    }
}

/// Sets the window flag for `key`, adding an entry when there is none.
fn flag_set(flags: &mut Vec<(String, bool)>, key: String)
    ensures
        final(flags)@ == spec_flag_insert(old(flags)@, key),
{
    flag_set_from(flags, key, 0);
    proof {
        assert(old(flags)@.take(0) =~= Seq::<(String, bool)>::empty());
        assert(old(flags)@.skip(0) =~= old(flags)@);
        assert(old(flags)@.take(0) + spec_flag_insert(old(flags)@, key) =~= spec_flag_insert(
            old(flags)@,
            key,
        ));
    }
}

/// The first hovered timer over all nodes, scanned in order; `None` when no
/// node's timer is hovered.
pub open spec fn spec_state_hover(nodes: Seq<StateNode>, offsets: Seq<Point>, mouse: Point)
    -> Option<StateTimer>
    decreases nodes.len(),
{
    if nodes.len() == 0 {
        None::<StateTimer>
    } else {
        let h = crate::node::spec_node_hover(nodes[0].timers@, nodes[0].pos, offsets, mouse);
        if h is Some {
            h
        } else {
            spec_state_hover(nodes.drop_first(), offsets, mouse)
        }
    }
}

/// The replay clock after the keyboard step: scrubbed to just before the next
/// queued event when the right key was pressed, else unchanged.
pub open spec fn spec_kb_current_time(pre: State, input: InputSample) -> u64 {
    if input.right_pressed && pre.event_queue@.len() > 0 {
        if pre.event_queue@[0].time >= 10 {
            (pre.event_queue@[0].time - 10) as u64
        } else {
            0u64
        }
    } else {
        pre.current_time
    }
}

/// The replay speed after the keyboard step: one step up while the up key is
/// held (capped), one step down while the down key is held (floored at zero).
pub open spec fn spec_kb_speed(pre: State, input: InputSample) -> u64 {
    let up = if input.up_down {
        if pre.global_speed + GLOBAL_SPEED_DELTA <= MAX_GLOBAL_SPEED {
            (pre.global_speed + GLOBAL_SPEED_DELTA) as u64
        } else {
            MAX_GLOBAL_SPEED
        }
    } else {
        pre.global_speed
    };
    if input.down_down {
        if up >= GLOBAL_SPEED_DELTA {
            (up - GLOBAL_SPEED_DELTA) as u64
        } else {
            0u64
        }
    } else {
        up
    }
}

/// The replay clock advanced by `now - last` ticks of real time at `speed`
/// thousandths, capped at the working range.
pub open spec fn spec_advanced_clock(ct: u64, last: u64, now: u64, speed: u64) -> u64 {
    let t = ct + (now - last) * speed / 1000;
    if t <= TIME_LIMIT {
        t as u64
    } else {
        TIME_LIMIT
    }
}

/// Whether the replay is paused after the keyboard step: the space key
/// toggles it.
pub open spec fn spec_kb_paused(pre: State, input: InputSample) -> bool {
    if input.space_pressed {
        !pre.paused
    } else {
        pre.paused
    }
}

/// What one frame of input does to the state: the whole effect of
/// `check_keyboard_events`, clause by clause.
pub open spec fn spec_kb_applied(
    pre: State,
    post: State,
    input: InputSample,
    offsets: Seq<Point>,
) -> bool {
    let scrub = input.right_pressed && pre.event_queue@.len() > 0;
    let ct2 = spec_kb_current_time(pre, input);
    let delta = if scrub && ct2 >= pre.current_time {
        (ct2 - pre.current_time) as u64
    } else {
        0u64
    };
    let sel0 = pre.ui_data.selected_node;
    let found = spec_node_at(pre.nodes@, input.mouse_position);
    let sel_d = if input.mouse_left_down {
        if sel0 is None {
            found
        } else if pre.has_node(sel0->0@) {
            sel0
        } else {
            None::<String>
        }
    } else {
        sel0
    };
    let dragging = input.mouse_left_down && sel0 is Some && pre.has_node(sel0->0@);
    let di = pre.spec_node_index(sel0->0@);
    let lc = if input.mouse_left_pressed {
        ct2 as i64
    } else {
        pre.ui_data.last_clicked
    };
    &&& post.paused == spec_kb_paused(pre, input)
    &&& post.current_time == ct2
    &&& post.global_speed == spec_kb_speed(pre, input)
    &&& post.messages@.len() == pre.messages@.len()
    &&& forall|m: usize|
        0 <= m < post.messages@.len() ==> if scrub && pre.travelling_messages@.contains(m) {
            crate::message::spec_msg_jumped(
                pre.messages@[m as int],
                #[trigger] post.messages@[m as int],
                pre.global_speed,
                pre.current_time,
                delta,
                pre.nodes@[pre.messages@[m as int].dest as int].pos,
            )
        } else {
            post.messages@[m as int] == pre.messages@[m as int]
        }
    &&& post.nodes@.len() == pre.nodes@.len()
    &&& (dragging ==> post.nodes@ == pre.nodes@.update(
        di,
        (StateNode { pos: post.nodes@[di].pos, ..pre.nodes@[di] }),
    ) && post.nodes@[di].pos.x == spec_clip(
        pre.nodes@[di].pos.x + input.mouse_position.x - pre.ui_data.selected_mouse_position.x,
    ) && post.nodes@[di].pos.y == spec_clip(
        pre.nodes@[di].pos.y + input.mouse_position.y - pre.ui_data.selected_mouse_position.y,
    ))
    &&& (!dragging ==> post.nodes@ == pre.nodes@)
    &&& post.ui_data.selected_node == (if input.mouse_left_released {
        None::<String>
    } else {
        sel_d
    })
    &&& post.ui_data.selected_mouse_position == (if input.mouse_left_down {
        if sel0 is Some {
            if pre.has_node(sel0->0@) {
                input.mouse_position
            } else {
                pre.ui_data.selected_mouse_position
            }
        } else if found is Some {
            input.mouse_position
        } else {
            pre.ui_data.selected_mouse_position
        }
    } else {
        pre.ui_data.selected_mouse_position
    })
    &&& post.ui_data.last_clicked == lc
    &&& post.ui_data.show_msg_windows@ == (if input.mouse_left_down {
        let mhit = spec_msg_at(pre.travelling_messages@, post.messages@, input.mouse_position);
        if mhit is Some {
            spec_flag_insert(pre.ui_data.show_msg_windows@, mhit->0)
        } else {
            pre.ui_data.show_msg_windows@
        }
    } else {
        pre.ui_data.show_msg_windows@
    })
    &&& ({
        let clicked = input.mouse_left_released && ct2 as i64 - lc <= SINGLE_CLICK_DELAY as i64
            && sel_d is Some;
        post.ui_data.show_node_windows@ == if clicked {
            spec_flag_insert(pre.ui_data.show_node_windows@, sel_d->0)
        } else {
            pre.ui_data.show_node_windows@
        }
    })
    &&& post.ui_data.hovered_timer == (if pre.ui_data.show_timers && pre.nodes@.len() > 0 {
        spec_state_hover(post.nodes@, offsets, input.mouse_position)
    } else {
        pre.ui_data.hovered_timer
    })
    &&& post == (State {
        nodes: post.nodes,
        messages: post.messages,
        current_time: post.current_time,
        paused: post.paused,
        global_speed: post.global_speed,
        ui_data: post.ui_data,
        ..pre
    })
    &&& post.ui_data == (UIData {
        last_clicked: post.ui_data.last_clicked,
        selected_node: post.ui_data.selected_node,
        selected_mouse_position: post.ui_data.selected_mouse_position,
        hovered_timer: post.ui_data.hovered_timer,
        show_node_windows: post.ui_data.show_node_windows,
        show_msg_windows: post.ui_data.show_msg_windows,
        ..pre.ui_data
    })
}

/// Consistency is kept by any step that preserves every node's name, slot
/// consistency and position range, every message's identity, endpoints,
/// range and time bounds, and leaves everything else that consistency speaks
/// of unchanged.
proof fn lemma_core_wf_frame(pre: State, post: State)
    requires
        pre.core_wf(),
        post.nodes@.len() == pre.nodes@.len(),
        forall|j: int|
            0 <= j < post.nodes@.len() ==> (#[trigger] post.nodes@[j]).name@
                == pre.nodes@[j].name@ && post.nodes@[j].slots_wf()
                && post.nodes@[j].pos.in_range(),
        post.messages@.len() == pre.messages@.len(),
        forall|m: int|
            0 <= m < post.messages@.len() ==> {
                let m0 = pre.messages@[m];
                let m1 = #[trigger] post.messages@[m];
                m1.id@ == m0.id@ && m1.src == m0.src && m1.dest == m0.dest && m1.pos.in_range()
                    && m1.time_delivered == m0.time_delivered && m1.last_color_change
                    == m0.last_color_change
            },
        post.travelling_messages == pre.travelling_messages,
        post.local_messages == pre.local_messages,
        post.ui_data.ordered_nodes == pre.ui_data.ordered_nodes,
        post.ui_data.show_events_for_node == pre.ui_data.show_events_for_node,
        post.drop_incoming == pre.drop_incoming,
        post.drop_outgoing == pre.drop_outgoing,
        post.disabled_links == pre.disabled_links,
        post.ui_data.selected_mouse_position.in_range(),
        -1 <= post.ui_data.last_clicked <= TIME_LIMIT,
        post.current_time <= TIME_LIMIT,
        post.last_updated <= TIME_LIMIT,
        post.global_speed <= MAX_GLOBAL_SPEED,
    ensures
        post.core_wf(),
{
    assert forall|a: int, b: int|
        0 <= a < b < post.nodes@.len() implies (#[trigger] post.nodes@[a]).name@ != (
    #[trigger] post.nodes@[b]).name@ by {
        assert(post.nodes@[a].name@ == pre.nodes@[a].name@);
        assert(post.nodes@[b].name@ == pre.nodes@[b].name@);
    }
    assert forall|a: int, b: int|
        0 <= a < b < post.messages@.len() implies (#[trigger] post.messages@[a]).id@ != (
    #[trigger] post.messages@[b]).id@ by {
        assert(post.messages@[a].id@ == pre.messages@[a].id@);
        assert(post.messages@[b].id@ == pre.messages@[b].id@);
    }
    assert forall|a: int|
        0 <= a < post.nodes@.len() implies (#[trigger] post.ui_data.ordered_nodes@[a])@
        == post.nodes@[a].name@ by {
        assert(post.nodes@[a].name@ == pre.nodes@[a].name@);
    }
}

/// A processable event stays processable under any step that keeps every
/// node's name, every message's id, and the pending local messages.
proof fn lemma_event_wf_frame(pre: State, post: State, e: StateEvent)
    requires
        pre.event_wf(e),
        post.nodes@.len() == pre.nodes@.len(),
        forall|j: int|
            0 <= j < post.nodes@.len() ==> (#[trigger] post.nodes@[j]).name@
                == pre.nodes@[j].name@,
        post.messages@.len() == pre.messages@.len(),
        forall|m: int|
            0 <= m < post.messages@.len() ==> (#[trigger] post.messages@[m]).id@
                == pre.messages@[m].id@,
        post.local_messages == pre.local_messages,
    ensures
        post.event_wf(e),
{
    match e {
        StateEvent::NodeStarted(n) => {
            let j = choose|j: int|
                0 <= j < pre.nodes@.len() && (#[trigger] pre.nodes@[j]).name@ == n@;
            assert(post.nodes@[j].name@ == n@);
        },
        StateEvent::MessageSent(id) => {
            let j = choose|j: int|
                0 <= j < pre.messages@.len() && (#[trigger] pre.messages@[j]).id@ == id@;
            assert(post.messages@[j].id@ == id@);
        },
        StateEvent::LocalMessageSent(id) => {
            let j = choose|j: int|
                0 <= j < pre.local_messages@.len() && (#[trigger] pre.local_messages@[j]).id@
                    == id@ && pre.has_node(pre.local_messages@[j].node@);
            let k = choose|k: int|
                0 <= k < pre.nodes@.len() && (#[trigger] pre.nodes@[k]).name@
                    == pre.local_messages@[j].node@;
            assert(post.nodes@[k].name@ == pre.local_messages@[j].node@);
            assert(post.local_messages@[j].id@ == id@ && post.has_node(
                post.local_messages@[j].node@));
        },
        StateEvent::LocalMessageReceived(id) => {
            let j = choose|j: int|
                0 <= j < pre.local_messages@.len() && (#[trigger] pre.local_messages@[j]).id@
                    == id@ && pre.has_node(pre.local_messages@[j].node@);
            let k = choose|k: int|
                0 <= k < pre.nodes@.len() && (#[trigger] pre.nodes@[k]).name@
                    == pre.local_messages@[j].node@;
            assert(post.nodes@[k].name@ == pre.local_messages@[j].node@);
            assert(post.local_messages@[j].id@ == id@ && post.has_node(
                post.local_messages@[j].node@));
        },
        StateEvent::NodeConnected(n) => {
            let j = choose|j: int|
                0 <= j < pre.nodes@.len() && (#[trigger] pre.nodes@[j]).name@ == n@;
            assert(post.nodes@[j].name@ == n@);
        },
        StateEvent::NodeDisconnected(n) => {
            let j = choose|j: int|
                0 <= j < pre.nodes@.len() && (#[trigger] pre.nodes@[j]).name@ == n@;
            assert(post.nodes@[j].name@ == n@);
        },
        StateEvent::TimerSet(t) => {
            let j = choose|j: int|
                0 <= j < pre.nodes@.len() && (#[trigger] pre.nodes@[j]).name@ == t.node@;
            assert(post.nodes@[j].name@ == t.node@);
        },
        StateEvent::NodeStateUpdated(p) => {
            let j = choose|j: int|
                0 <= j < pre.nodes@.len() && (#[trigger] pre.nodes@[j]).name@ == p.0@;
            assert(post.nodes@[j].name@ == p.0@);
        },
        _ => {},
    }
}

/// Under distinct message ids, any index whose message carries `id` is the
/// message index of `id`.
proof fn lemma_message_index_unique(s: State, id: Seq<char>, i: int)
    requires
        forall|a: int, b: int|
            0 <= a < b < s.messages@.len() ==> (#[trigger] s.messages@[a]).id@ != (
            #[trigger] s.messages@[b]).id@,
        0 <= i < s.messages@.len(),
        s.messages@[i].id@ == id,
    ensures
        i == s.spec_message_index(id),
        s.has_message(id),
{
    assert(s.has_message(id));
    let j = s.spec_message_index(id);
    assert(0 <= j < s.messages@.len() && s.messages@[j].id@ == id);
    if i < j {
        assert(s.messages@[i].id@ != s.messages@[j].id@);
    }
    if j < i {
        assert(s.messages@[j].id@ != s.messages@[i].id@);
    }
}

/// A node of `pre` is still a node of `post` when one node is replaced by
/// one with the same name.
proof fn lemma_has_node_update(pre: State, post: State, i: int, name: Seq<char>)
    requires
        pre.has_node(name),
        0 <= i < pre.nodes@.len(),
        post.nodes@ == pre.nodes@.update(i, post.nodes@[i]),
        post.nodes@[i].name@ == pre.nodes@[i].name@,
    ensures
        post.has_node(name),
{
    let j = choose|j: int| 0 <= j < pre.nodes@.len() && (#[trigger] pre.nodes@[j]).name@ == name;
    if j == i {
        assert(post.nodes@[i].name@ == name);
    } else {
        assert(post.nodes@[j] == pre.nodes@[j]);
    }
}

/// A processable event stays processable when one node is replaced by one
/// with the same name and the messages and pending local messages are kept.
proof fn lemma_event_wf_node_update(pre: State, post: State, i: int, e: StateEvent)
    requires
        pre.event_wf(e),
        0 <= i < pre.nodes@.len(),
        post.nodes@ == pre.nodes@.update(i, post.nodes@[i]),
        post.nodes@[i].name@ == pre.nodes@[i].name@,
        post.messages@ == pre.messages@,
        post.local_messages@ == pre.local_messages@,
    ensures
        post.event_wf(e),
{
    match e {
        StateEvent::NodeStarted(n) => {
            lemma_has_node_update(pre, post, i, n@);
        },
        StateEvent::MessageSent(id) => {
            let j = choose|j: int|
                0 <= j < pre.messages@.len() && (#[trigger] pre.messages@[j]).id@ == id@;
            assert(post.messages@[j].id@ == id@);
        },
        StateEvent::LocalMessageSent(id) => {
            let j = choose|j: int|
                0 <= j < pre.local_messages@.len() && (#[trigger] pre.local_messages@[j]).id@
                    == id@ && pre.has_node(pre.local_messages@[j].node@);
            lemma_has_node_update(pre, post, i, pre.local_messages@[j].node@);
            assert(post.local_messages@[j].id@ == id@ && post.has_node(
                post.local_messages@[j].node@));
        },
        StateEvent::LocalMessageReceived(id) => {
            let j = choose|j: int|
                0 <= j < pre.local_messages@.len() && (#[trigger] pre.local_messages@[j]).id@
                    == id@ && pre.has_node(pre.local_messages@[j].node@);
            lemma_has_node_update(pre, post, i, pre.local_messages@[j].node@);
            assert(post.local_messages@[j].id@ == id@ && post.has_node(
                post.local_messages@[j].node@));
        },
        StateEvent::NodeConnected(n) => {
            lemma_has_node_update(pre, post, i, n@);
        },
        StateEvent::NodeDisconnected(n) => {
            lemma_has_node_update(pre, post, i, n@);
        },
        StateEvent::TimerSet(t) => {
            lemma_has_node_update(pre, post, i, t.node@);
        },
        StateEvent::NodeStateUpdated(p) => {
            lemma_has_node_update(pre, post, i, p.0@);
        },
        _ => {},
    }
}

/// Consistency is kept when one node is replaced by one with the same name,
/// consistent slots and the same position, and nothing else changes.
proof fn lemma_core_wf_node_update(pre: State, post: State, i: int)
    requires
        pre.core_wf(),
        0 <= i < pre.nodes@.len(),
        post == (State { nodes: post.nodes, ..pre }),
        post.nodes@ == pre.nodes@.update(i, post.nodes@[i]),
        post.nodes@[i].name@ == pre.nodes@[i].name@,
        post.nodes@[i].slots_wf(),
        post.nodes@[i].pos.in_range(),
    ensures
        post.core_wf(),
{
    assert forall|a: int, b: int|
        0 <= a < b < post.nodes@.len() implies (#[trigger] post.nodes@[a]).name@ != (
    #[trigger] post.nodes@[b]).name@ by {
        assert(post.nodes@[a].name@ == pre.nodes@[a].name@);
        assert(post.nodes@[b].name@ == pre.nodes@[b].name@);
    }
    assert forall|a: int|
        0 <= a < post.nodes@.len() implies (#[trigger] post.nodes@[a]).slots_wf()
        && post.nodes@[a].pos.in_range() by {
        if a != i {
            assert(post.nodes@[a] == pre.nodes@[a]);
        }
    }
    assert forall|a: int|
        0 <= a < post.nodes@.len() implies (#[trigger] post.ui_data.ordered_nodes@[a])@
        == post.nodes@[a].name@ by {
        assert(post.nodes@[a].name@ == pre.nodes@[a].name@);
    }
}

/// Consistency is kept when a pending local message leaves and one node is
/// replaced by one with the same name, slots and position.
proof fn lemma_core_wf_local_removed(pre: State, post: State, li: int, ni: int)
    requires
        pre.core_wf(),
        0 <= li < pre.local_messages@.len(),
        0 <= ni < pre.nodes@.len(),
        post == (State { nodes: post.nodes, local_messages: post.local_messages, ..pre }),
        post.local_messages@ == pre.local_messages@.remove(li),
        post.nodes@ == pre.nodes@.update(ni, post.nodes@[ni]),
        post.nodes@[ni].name@ == pre.nodes@[ni].name@,
        post.nodes@[ni].slots_wf(),
        post.nodes@[ni].pos == pre.nodes@[ni].pos,
    ensures
        post.core_wf(),
{
    pre.local_messages@.remove_ensures(li);
    assert forall|a: int, b: int|
        0 <= a < b < post.nodes@.len() implies (#[trigger] post.nodes@[a]).name@ != (
    #[trigger] post.nodes@[b]).name@ by {
        assert(post.nodes@[a].name@ == pre.nodes@[a].name@);
        assert(post.nodes@[b].name@ == pre.nodes@[b].name@);
    }
    assert forall|a: int|
        0 <= a < post.nodes@.len() implies (#[trigger] post.nodes@[a]).slots_wf()
        && post.nodes@[a].pos.in_range() by {
        if a != ni {
            assert(post.nodes@[a] == pre.nodes@[a]);
        }
    }
    assert forall|a: int|
        0 <= a < post.nodes@.len() implies (#[trigger] post.ui_data.ordered_nodes@[a])@
        == post.nodes@[a].name@ by {
        assert(post.nodes@[a].name@ == pre.nodes@[a].name@);
    }
    assert forall|a: int, b: int|
        0 <= a < b < post.local_messages@.len() implies (#[trigger] post.local_messages@[a]).id@
        != (#[trigger] post.local_messages@[b]).id@ by {
        let oa = if a < li { a } else { a + 1 };
        let ob = if b < li { b } else { b + 1 };
        assert(post.local_messages@[a] == pre.local_messages@[oa]);
        assert(post.local_messages@[b] == pre.local_messages@[ob]);
    }
}

/// A processable event whose local-message id is not the removed one stays
/// processable after that removal and the same node replacement.
proof fn lemma_event_wf_local_removed(
    pre: State,
    post: State,
    li: int,
    ni: int,
    removed: Seq<char>,
    e: StateEvent,
)
    requires
        pre.event_wf(e),
        State::spec_local_event_id(e) is None || State::spec_local_event_id(e)->Some_0 != removed,
        0 <= li < pre.local_messages@.len(),
        pre.local_messages@[li].id@ == removed,
        0 <= ni < pre.nodes@.len(),
        post.local_messages@ == pre.local_messages@.remove(li),
        post.nodes@ == pre.nodes@.update(ni, post.nodes@[ni]),
        post.nodes@[ni].name@ == pre.nodes@[ni].name@,
        post.messages@ == pre.messages@,
    ensures
        post.event_wf(e),
{
    pre.local_messages@.remove_ensures(li);
    match e {
        StateEvent::NodeStarted(n) => {
            lemma_has_node_update(pre, post, ni, n@);
        },
        StateEvent::MessageSent(id) => {
            let j = choose|j: int|
                0 <= j < pre.messages@.len() && (#[trigger] pre.messages@[j]).id@ == id@;
            assert(post.messages@[j].id@ == id@);
        },
        StateEvent::LocalMessageSent(id) => {
            let j = choose|j: int|
                0 <= j < pre.local_messages@.len() && (#[trigger] pre.local_messages@[j]).id@
                    == id@ && pre.has_node(pre.local_messages@[j].node@);
            assert(j != li);
            let j2 = if j < li { j } else { j - 1 };
            assert(post.local_messages@[j2] == pre.local_messages@[j]);
            lemma_has_node_update(pre, post, ni, pre.local_messages@[j].node@);
            assert(post.local_messages@[j2].id@ == id@ && post.has_node(
                post.local_messages@[j2].node@));
        },
        StateEvent::LocalMessageReceived(id) => {
            let j = choose|j: int|
                0 <= j < pre.local_messages@.len() && (#[trigger] pre.local_messages@[j]).id@
                    == id@ && pre.has_node(pre.local_messages@[j].node@);
            assert(j != li);
            let j2 = if j < li { j } else { j - 1 };
            assert(post.local_messages@[j2] == pre.local_messages@[j]);
            lemma_has_node_update(pre, post, ni, pre.local_messages@[j].node@);
            assert(post.local_messages@[j2].id@ == id@ && post.has_node(
                post.local_messages@[j2].node@));
        },
        StateEvent::NodeConnected(n) => {
            lemma_has_node_update(pre, post, ni, n@);
        },
        StateEvent::NodeDisconnected(n) => {
            lemma_has_node_update(pre, post, ni, n@);
        },
        StateEvent::TimerSet(t) => {
            lemma_has_node_update(pre, post, ni, t.node@);
        },
        StateEvent::NodeStateUpdated(p) => {
            lemma_has_node_update(pre, post, ni, p.0@);
        },
        _ => {},
    }
}

/// Consistency is kept when a sent message is recorded: its source node gains
/// the id in `messages_sent`, the message keeps its id, endpoints and times,
/// and the travelling list stays within bounds and distinct.
proof fn lemma_core_wf_message_arm(pre: State, post: State, ni: int, mi: int)
    requires
        pre.core_wf(),
        0 <= ni < pre.nodes@.len(),
        0 <= mi < pre.messages@.len(),
        post == (State {
            nodes: post.nodes,
            messages: post.messages,
            travelling_messages: post.travelling_messages,
            ..pre
        }),
        post.nodes@ == pre.nodes@.update(ni, post.nodes@[ni]),
        post.nodes@[ni].name@ == pre.nodes@[ni].name@,
        post.nodes@[ni].slots_wf(),
        post.nodes@[ni].pos == pre.nodes@[ni].pos,
        post.messages@ == pre.messages@.update(mi, post.messages@[mi]),
        post.messages@[mi].id@ == pre.messages@[mi].id@,
        post.messages@[mi].src == pre.messages@[mi].src,
        post.messages@[mi].dest == pre.messages@[mi].dest,
        post.messages@[mi].pos.in_range(),
        post.messages@[mi].time_delivered == pre.messages@[mi].time_delivered,
        post.messages@[mi].last_color_change <= TIME_LIMIT,
        post.travelling_messages@ == pre.travelling_messages@ || (post.travelling_messages@
            == pre.travelling_messages@.push(mi as usize) && !pre.travelling_messages@.contains(
            mi as usize)),
    ensures
        post.core_wf(),
{
    assert forall|a: int, b: int|
        0 <= a < b < post.nodes@.len() implies (#[trigger] post.nodes@[a]).name@ != (
    #[trigger] post.nodes@[b]).name@ by {
        assert(post.nodes@[a].name@ == pre.nodes@[a].name@);
        assert(post.nodes@[b].name@ == pre.nodes@[b].name@);
    }
    assert forall|a: int|
        0 <= a < post.nodes@.len() implies (#[trigger] post.nodes@[a]).slots_wf()
        && post.nodes@[a].pos.in_range() by {
        if a != ni {
            assert(post.nodes@[a] == pre.nodes@[a]);
        }
    }
    assert forall|a: int|
        0 <= a < post.nodes@.len() implies (#[trigger] post.ui_data.ordered_nodes@[a])@
        == post.nodes@[a].name@ by {
        assert(post.nodes@[a].name@ == pre.nodes@[a].name@);
    }
    assert forall|a: int, b: int|
        0 <= a < b < post.messages@.len() implies (#[trigger] post.messages@[a]).id@ != (
    #[trigger] post.messages@[b]).id@ by {
        assert(post.messages@[a].id@ == pre.messages@[a].id@);
        assert(post.messages@[b].id@ == pre.messages@[b].id@);
    }
    assert forall|a: int|
        0 <= a < post.messages@.len() implies {
        let m = #[trigger] post.messages@[a];
        m.src < post.nodes@.len() && m.dest < post.nodes@.len() && m.pos.in_range()
            && m.time_delivered <= TIME_LIMIT && m.last_color_change <= TIME_LIMIT
    } by {
        if a != mi {
            assert(post.messages@[a] == pre.messages@[a]);
        } else {
            assert(pre.messages@[mi].src < pre.nodes@.len());
        }
    }
    if post.travelling_messages@ != pre.travelling_messages@ {
        assert forall|a: int|
            0 <= a < post.travelling_messages@.len() implies (
        #[trigger] post.travelling_messages@[a]) < post.messages@.len() by {
            if a < pre.travelling_messages@.len() {
                assert(post.travelling_messages@[a] == pre.travelling_messages@[a]);
            } else {
                assert(post.travelling_messages@[a] == mi as usize);
            }
        }
        assert forall|a: int, b: int|
            0 <= a < b < post.travelling_messages@.len() implies post.travelling_messages@[a]
            != post.travelling_messages@[b] by {
            if b == post.travelling_messages@.len() - 1 {
                assert(post.travelling_messages@[a] == pre.travelling_messages@[a]);
                assert(!pre.travelling_messages@.contains(mi as usize));
                assert(pre.travelling_messages@[a] != mi as usize);
            }
        }
    }
}

/// A processable event stays processable when a message is replaced by one
/// with the same id and one node by one with the same name.
proof fn lemma_event_wf_message_arm(pre: State, post: State, ni: int, mi: int, e: StateEvent)
    requires
        pre.event_wf(e),
        0 <= ni < pre.nodes@.len(),
        0 <= mi < pre.messages@.len(),
        post.nodes@ == pre.nodes@.update(ni, post.nodes@[ni]),
        post.nodes@[ni].name@ == pre.nodes@[ni].name@,
        post.messages@ == pre.messages@.update(mi, post.messages@[mi]),
        post.messages@[mi].id@ == pre.messages@[mi].id@,
        post.local_messages@ == pre.local_messages@,
    ensures
        post.event_wf(e),
{
    match e {
        StateEvent::NodeStarted(n) => {
            lemma_has_node_update(pre, post, ni, n@);
        },
        StateEvent::MessageSent(id) => {
            let j = choose|j: int|
                0 <= j < pre.messages@.len() && (#[trigger] pre.messages@[j]).id@ == id@;
            assert(post.messages@[j].id@ == pre.messages@[j].id@);
        },
        StateEvent::LocalMessageSent(id) => {
            let j = choose|j: int|
                0 <= j < pre.local_messages@.len() && (#[trigger] pre.local_messages@[j]).id@
                    == id@ && pre.has_node(pre.local_messages@[j].node@);
            lemma_has_node_update(pre, post, ni, pre.local_messages@[j].node@);
            assert(post.local_messages@[j].id@ == id@ && post.has_node(
                post.local_messages@[j].node@));
        },
        StateEvent::LocalMessageReceived(id) => {
            let j = choose|j: int|
                0 <= j < pre.local_messages@.len() && (#[trigger] pre.local_messages@[j]).id@
                    == id@ && pre.has_node(pre.local_messages@[j].node@);
            lemma_has_node_update(pre, post, ni, pre.local_messages@[j].node@);
            assert(post.local_messages@[j].id@ == id@ && post.has_node(
                post.local_messages@[j].node@));
        },
        StateEvent::NodeConnected(n) => {
            lemma_has_node_update(pre, post, ni, n@);
        },
        StateEvent::NodeDisconnected(n) => {
            lemma_has_node_update(pre, post, ni, n@);
        },
        StateEvent::TimerSet(t) => {
            lemma_has_node_update(pre, post, ni, t.node@);
        },
        StateEvent::NodeStateUpdated(p) => {
            lemma_has_node_update(pre, post, ni, p.0@);
        },
        _ => {},
    }
}

/// Consistency and the processability of every queued event are kept when
/// only the network lists and the partition change, with distinct entries.
proof fn lemma_after_lists_change(pre: State, post: State)
    requires
        pre.wf(),
        post == (State {
            drop_incoming: post.drop_incoming,
            drop_outgoing: post.drop_outgoing,
            disabled_links: post.disabled_links,
            partition: post.partition,
            ..pre
        }),
        forall|a: int, b: int|
            0 <= a < b < post.drop_incoming@.len() ==> (#[trigger] post.drop_incoming@[a])@ != (
            #[trigger] post.drop_incoming@[b])@,
        forall|a: int, b: int|
            0 <= a < b < post.drop_outgoing@.len() ==> (#[trigger] post.drop_outgoing@[a])@ != (
            #[trigger] post.drop_outgoing@[b])@,
        forall|a: int, b: int|
            0 <= a < b < post.disabled_links@.len() ==> !((#[trigger] post.disabled_links@[a]).0@
                == (#[trigger] post.disabled_links@[b]).0@ && post.disabled_links@[a].1@
                == post.disabled_links@[b].1@),
    ensures
        post.core_wf(),
        forall|q: int|
            0 <= q < post.event_queue@.len() ==> post.event_wf(
                (#[trigger] post.event_queue@[q]).event),
{
    assert forall|q: int|
        0 <= q < post.event_queue@.len() implies post.event_wf(
        (#[trigger] post.event_queue@[q]).event) by {
        assert(pre.event_wf(pre.event_queue@[q].event));
        lemma_event_wf_monotone(pre, post, post.event_queue@[q].event);
    }
}

/// Adding one link to a list of distinct links keeps them distinct, when the
/// helper only adds it if absent.
proof fn lemma_insert_keeps_distinct(
    before: Seq<(String, String)>,
    after: Seq<(String, String)>,
    from: Seq<char>,
    to: Seq<char>,
)
    requires
        forall|a: int, b: int|
            0 <= a < b < before.len() ==> !((#[trigger] before[a]).0@ == (#[trigger] before[b]).0@
                && before[a].1@ == before[b].1@),
        after == before || (after.len() == before.len() + 1 && (forall|a: int|
            0 <= a < before.len() ==> #[trigger] after[a] == before[a]) && after.last().0@ == from
            && after.last().1@ == to && !spec_contains_link(before, from, to)),
    ensures
        forall|a: int, b: int|
            0 <= a < b < after.len() ==> !((#[trigger] after[a]).0@ == (#[trigger] after[b]).0@
                && after[a].1@ == after[b].1@),
{
    if after != before {
        assert forall|a: int, b: int|
            0 <= a < b < after.len() implies !((#[trigger] after[a]).0@ == (
        #[trigger] after[b]).0@ && after[a].1@ == after[b].1@) by {
            if b == after.len() - 1 {
                assert(after[a] == before[a]);
                if after[a].0@ == from && after[a].1@ == to {
                    assert(spec_contains_link(before, from, to));
                }
            }
        }
    }
}

/// Disables the links between `n` and each node of `g2` from position
/// `from_j` on, in both directions.
fn partition_row(links: &mut Vec<(String, String)>, n: &String, g2: &Vec<String>, from_j: usize)
    requires
        from_j <= g2@.len(),
        forall|x: int, y: int|
            0 <= x < y < old(links)@.len() ==> !((#[trigger] old(links)@[x]).0@ == (
            #[trigger] old(links)@[y]).0@ && old(links)@[x].1@ == old(links)@[y].1@),
    ensures
        forall|x: int, y: int|
            0 <= x < y < final(links)@.len() ==> !((#[trigger] final(links)@[x]).0@ == (
            #[trigger] final(links)@[y]).0@ && final(links)@[x].1@ == final(links)@[y].1@),
        forall|a: Seq<char>, b: Seq<char>|
            spec_contains_link(final(links)@, a, b) == (spec_contains_link(old(links)@, a, b)
                || spec_row_pairs(n@, g2@, from_j as int, a, b)),
    decreases g2@.len() - from_j,
{
    if from_j < g2.len() {
        let ghost l0 = links@;
        insert_link(links, n.clone(), g2[from_j].clone());
        proof {
            lemma_insert_keeps_distinct(l0, links@, n@, g2@[from_j as int]@);
        }
        let ghost l1 = links@;
        insert_link(links, g2[from_j].clone(), n.clone());
        proof {
            lemma_insert_keeps_distinct(l1, links@, g2@[from_j as int]@, n@);
        }
        let ghost l2 = links@;
        partition_row(links, n, g2, from_j + 1);
        proof {
            let gn = n@;
            let gj = g2@[from_j as int]@;
            assert forall|a: Seq<char>, b: Seq<char>|
                spec_contains_link(links@, a, b) == (spec_contains_link(l0, a, b)
                    || spec_row_pairs(gn, g2@, from_j as int, a, b)) by {
                assert(spec_contains_link(l1, a, b) == (spec_contains_link(l0, a, b) || (a == gn
                    && b == gj)));
                assert(spec_contains_link(l2, a, b) == (spec_contains_link(l1, a, b) || (a == gj
                    && b == gn)));
                assert(spec_contains_link(links@, a, b) == (spec_contains_link(l2, a, b)
                    || spec_row_pairs(gn, g2@, from_j as int + 1, a, b)));
                if spec_row_pairs(gn, g2@, from_j as int + 1, a, b) {
                    let y = choose|y: int|
                        from_j as int + 1 <= y < g2@.len() && ((gn == a && (#[trigger] g2@[y])@
                            == b) || (g2@[y]@ == a && gn == b));
                    assert(spec_row_pairs(gn, g2@, from_j as int, a, b));
                }
                if (a == gn && b == gj) || (a == gj && b == gn) {
                    assert((gn == a && g2@[from_j as int]@ == b) || (g2@[from_j as int]@ == a && gn
                        == b));
                    assert(spec_row_pairs(gn, g2@, from_j as int, a, b));
                }
                if spec_row_pairs(gn, g2@, from_j as int, a, b) {
                    let y = choose|y: int|
                        from_j as int <= y < g2@.len() && ((gn == a && (#[trigger] g2@[y])@ == b)
                            || (g2@[y]@ == a && gn == b));
                    if y == from_j as int {
                        assert((a == gn && b == gj) || (a == gj && b == gn));
                    } else {
                        assert(spec_row_pairs(gn, g2@, from_j as int + 1, a, b));
                    }
                }
            }
        }
    }
}

/// Disables every link between a node of `g1` (from position `from_i` on)
/// and a node of `g2`, in both directions.
fn partition_all(links: &mut Vec<(String, String)>, g1: &Vec<String>, g2: &Vec<String>,
    from_i: usize)
    requires
        from_i <= g1@.len(),
        forall|x: int, y: int|
            0 <= x < y < old(links)@.len() ==> !((#[trigger] old(links)@[x]).0@ == (
            #[trigger] old(links)@[y]).0@ && old(links)@[x].1@ == old(links)@[y].1@),
    ensures
        forall|x: int, y: int|
            0 <= x < y < final(links)@.len() ==> !((#[trigger] final(links)@[x]).0@ == (
            #[trigger] final(links)@[y]).0@ && final(links)@[x].1@ == final(links)@[y].1@),
        forall|a: Seq<char>, b: Seq<char>|
            spec_contains_link(final(links)@, a, b) == (spec_contains_link(old(links)@, a, b)
                || spec_pairs_from(g1@, g2@, from_i as int, a, b)),
    decreases g1@.len() - from_i,
{
    if from_i < g1.len() {
        let ghost l0 = links@;
        partition_row(links, &g1[from_i], g2, 0);
        let ghost l1 = links@;
        partition_all(links, g1, g2, from_i + 1);
        proof {
            let gi = g1@[from_i as int]@;
            assert forall|a: Seq<char>, b: Seq<char>|
                spec_contains_link(links@, a, b) == (spec_contains_link(l0, a, b)
                    || spec_pairs_from(g1@, g2@, from_i as int, a, b)) by {
                assert(spec_contains_link(l1, a, b) == (spec_contains_link(l0, a, b)
                    || spec_row_pairs(gi, g2@, 0, a, b)));
                assert(spec_contains_link(links@, a, b) == (spec_contains_link(l1, a, b)
                    || spec_pairs_from(g1@, g2@, from_i as int + 1, a, b)));
                if spec_row_pairs(gi, g2@, 0, a, b) {
                    let y = choose|y: int|
                        0 <= y < g2@.len() && ((gi == a && (#[trigger] g2@[y])@ == b) || (g2@[y]@
                            == a && gi == b));
                    assert((g1@[from_i as int]@ == a && g2@[y]@ == b) || (g2@[y]@ == a
                        && g1@[from_i as int]@ == b));
                    assert(spec_pairs_from(g1@, g2@, from_i as int, a, b));
                }
                if spec_pairs_from(g1@, g2@, from_i as int + 1, a, b) {
                    let (x, y): (int, int) = choose|x: int, y: int|
                        from_i as int + 1 <= x < g1@.len() && 0 <= y < g2@.len() && (((
                        #[trigger] g1@[x])@ == a && (#[trigger] g2@[y])@ == b) || (g2@[y]@ == a
                            && g1@[x]@ == b));
                    assert(spec_pairs_from(g1@, g2@, from_i as int, a, b));
                }
                if spec_pairs_from(g1@, g2@, from_i as int, a, b) {
                    let (x, y): (int, int) = choose|x: int, y: int|
                        from_i as int <= x < g1@.len() && 0 <= y < g2@.len() && (((
                        #[trigger] g1@[x])@ == a && (#[trigger] g2@[y])@ == b) || (g2@[y]@ == a
                            && g1@[x]@ == b));
                    if x == from_i as int {
                        assert((gi == a && g2@[y]@ == b) || (g2@[y]@ == a && gi == b));
                        assert(spec_row_pairs(gi, g2@, 0, a, b));
                    } else {
                        assert(spec_pairs_from(g1@, g2@, from_i as int + 1, a, b));
                    }
                }
            }
        }
    }
}

/// What processing one event does to the state, field by field.
pub open spec fn spec_event_applied(pre: State, post: State, e: StateEvent) -> bool {
    match e {
        StateEvent::NodeStarted(n) => {
            let i = pre.spec_node_index(n@);
            &&& post == (State { nodes: post.nodes, ..pre })
            &&& post.nodes@ == pre.nodes@.update(i, (StateNode { show: true, ..pre.nodes@[i] }))
        },
        StateEvent::NodeConnected(n) => {
            let i = pre.spec_node_index(n@);
            &&& post == (State { nodes: post.nodes, ..pre })
            &&& post.nodes@ == pre.nodes@.update(
                i,
                (StateNode { connected: true, ..pre.nodes@[i] }),
            )
        },
        StateEvent::NodeDisconnected(n) => {
            let i = pre.spec_node_index(n@);
            &&& post == (State { nodes: post.nodes, ..pre })
            &&& post.nodes@ == pre.nodes@.update(
                i,
                (StateNode { connected: false, ..pre.nodes@[i] }),
            )
        },
        StateEvent::TimerSet(t) => {
            let i = pre.spec_node_index(t.node@);
            &&& post == (State { nodes: post.nodes, ..pre })
            &&& post.nodes@ == pre.nodes@.update(
                i,
                (StateNode { timers: post.nodes@[i].timers, ..pre.nodes@[i] }),
            )
            &&& post.nodes@[i].timers@ == pre.nodes@[i].timers@.push(t)
        },
        StateEvent::LocalMessageSent(id) => {
            let li = pre.spec_local_message_index(id@);
            let m = pre.local_messages@[li];
            let ni = pre.spec_node_index(m.node@);
            &&& post == (State {
                nodes: post.nodes,
                local_messages: post.local_messages,
                ..pre
            })
            &&& post.local_messages@ == pre.local_messages@.remove(li)
            &&& post.nodes@ == pre.nodes@.update(
                ni,
                (StateNode { local_messages_sent: post.nodes@[ni].local_messages_sent, ..pre.nodes@[ni] }),
            )
            &&& post.nodes@[ni].local_messages_sent@ == pre.nodes@[ni].local_messages_sent@.push(m)
        },
        StateEvent::LocalMessageReceived(id) => {
            let li = pre.spec_local_message_index(id@);
            let m = pre.local_messages@[li];
            let ni = pre.spec_node_index(m.node@);
            &&& post == (State {
                nodes: post.nodes,
                local_messages: post.local_messages,
                ..pre
            })
            &&& post.local_messages@ == pre.local_messages@.remove(li)
            &&& post.nodes@ == pre.nodes@.update(
                ni,
                (StateNode {
                    local_messages_received: post.nodes@[ni].local_messages_received,
                    ..pre.nodes@[ni]
                }),
            )
            &&& post.nodes@[ni].local_messages_received@
                == pre.nodes@[ni].local_messages_received@.push(m)
        },
        StateEvent::MessageSent(id) => {
            let mi = pre.spec_message_index(id@);
            let m0 = pre.messages@[mi];
            let src_n = pre.nodes@[m0.src as int];
            let dest_n = pre.nodes@[m0.dest as int];
            let dropped = spec_contains_name(pre.drop_incoming@, dest_n.name@)
                || spec_contains_name(pre.drop_incoming@, src_n.name@) || spec_contains_link(
                pre.disabled_links@,
                src_n.name@,
                dest_n.name@,
            );
            &&& post == (State {
                nodes: post.nodes,
                messages: post.messages,
                travelling_messages: post.travelling_messages,
                ..pre
            })
            &&& post.nodes@ == pre.nodes@.update(
                m0.src as int,
                (StateNode { messages_sent: post.nodes@[m0.src as int].messages_sent, ..src_n }),
            )
            &&& post.nodes@[m0.src as int].messages_sent@ == src_n.messages_sent@.push(id)
            &&& if dropped {
                post.messages@ == pre.messages@.update(
                    mi,
                    (StateMessage { status: MessageStatus::Dropped, ..m0 }),
                ) && post.travelling_messages@ == pre.travelling_messages@
            } else {
                post.messages@ == pre.messages@.update(
                    mi,
                    (StateMessage { pos: src_n.pos, status: MessageStatus::OnTheWay, ..m0 }),
                ) && post.travelling_messages@ == if pre.travelling_messages@.contains(mi as usize) {
                    pre.travelling_messages@
                } else {
                    pre.travelling_messages@.push(mi as usize)
                }
            }
        },
        StateEvent::LinkDisabled(l) => {
            &&& post == (State { disabled_links: post.disabled_links, ..pre })
            &&& post.disabled_links@ == if spec_contains_link(pre.disabled_links@, l.0@, l.1@) {
                pre.disabled_links@
            } else {
                pre.disabled_links@.push(l)
            }
        },
        StateEvent::LinkEnabled(l) => {
            &&& post == (State { disabled_links: post.disabled_links, ..pre })
            &&& (!spec_contains_link(pre.disabled_links@, l.0@, l.1@) ==> post.disabled_links@
                == pre.disabled_links@)
            &&& (spec_contains_link(pre.disabled_links@, l.0@, l.1@) ==> exists|k: int|
                0 <= k < pre.disabled_links@.len() && (#[trigger] pre.disabled_links@[k]).0@
                    == l.0@ && pre.disabled_links@[k].1@ == l.1@ && post.disabled_links@
                    == pre.disabled_links@.remove(k))
        },
        StateEvent::DropIncoming(n) => {
            &&& post == (State { drop_incoming: post.drop_incoming, ..pre })
            &&& post.drop_incoming@ == if spec_contains_name(pre.drop_incoming@, n@) {
                pre.drop_incoming@
            } else {
                pre.drop_incoming@.push(n)
            }
        },
        StateEvent::PassIncoming(n) => {
            &&& post == (State { drop_incoming: post.drop_incoming, ..pre })
            &&& (!spec_contains_name(pre.drop_incoming@, n@) ==> post.drop_incoming@
                == pre.drop_incoming@)
            &&& (spec_contains_name(pre.drop_incoming@, n@) ==> exists|k: int|
                0 <= k < pre.drop_incoming@.len() && (#[trigger] pre.drop_incoming@[k])@ == n@
                    && post.drop_incoming@ == pre.drop_incoming@.remove(k))
        },
        StateEvent::DropOutgoing(n) => {
            &&& post == (State { drop_outgoing: post.drop_outgoing, ..pre })
            &&& post.drop_outgoing@ == if spec_contains_name(pre.drop_outgoing@, n@) {
                pre.drop_outgoing@
            } else {
                pre.drop_outgoing@.push(n)
            }
        },
        StateEvent::PassOutgoing(n) => {
            &&& post == (State { drop_outgoing: post.drop_outgoing, ..pre })
            &&& (!spec_contains_name(pre.drop_outgoing@, n@) ==> post.drop_outgoing@
                == pre.drop_outgoing@)
            &&& (spec_contains_name(pre.drop_outgoing@, n@) ==> exists|k: int|
                0 <= k < pre.drop_outgoing@.len() && (#[trigger] pre.drop_outgoing@[k])@ == n@
                    && post.drop_outgoing@ == pre.drop_outgoing@.remove(k))
        },
        StateEvent::NetworkPartition(g) => {
            &&& post == (State {
                disabled_links: post.disabled_links,
                partition: post.partition,
                ..pre
            })
            &&& post.partition == Some(g)
            &&& forall|a: Seq<char>, b: Seq<char>|
                spec_contains_link(post.disabled_links@, a, b) == (spec_contains_link(
                    pre.disabled_links@,
                    a,
                    b,
                ) || (spec_contains_name(g.0@, a) && spec_contains_name(g.1@, b)) || (
                spec_contains_name(g.1@, a) && spec_contains_name(g.0@, b)))
        },
        StateEvent::NetworkReset() => {
            &&& post == (State {
                drop_incoming: post.drop_incoming,
                drop_outgoing: post.drop_outgoing,
                disabled_links: post.disabled_links,
                partition: None,
                ..pre
            })
            &&& post.drop_incoming@.len() == 0
            &&& post.drop_outgoing@.len() == 0
            &&& post.disabled_links@.len() == 0
        },
        StateEvent::NodeStateUpdated(p) => {
            let i = pre.spec_node_index(p.0@);
            &&& post == (State { nodes: post.nodes, ..pre })
            &&& post.nodes@ == pre.nodes@.update(
                i,
                (StateNode { state: post.nodes@[i].state, ..pre.nodes@[i] }),
            )
            &&& post.nodes@[i].state@ == if crate::utilities::json_parses(p.1@) {
                crate::utilities::json_pretty(p.1@)
            } else {
                p.1@
            }
        },
    }
}

} // verus!
