//! A node of the replayed run: a circle with a name, a liveness flag, the
//! messages and local messages it took part in, and up to nine timer
//! indicator slots handed out to its timers.

use vstd::prelude::*;
use std::collections::VecDeque;
use crate::local_message::StateLocalMessage;
use crate::timer::StateTimer;
use crate::utilities::{
    spec_dist_sq_xy, spec_clip, Point, TIMERS_MAX_NUMBER, TIMER_RADIUS, TIME_LIMIT,
};

verus! {

/// A node. `free_timer_slots` holds the indicator slots not currently
/// assigned to any timer in `timers`, in the order they become available.
#[derive(Debug, Clone)]
pub struct StateNode {
    pub name: String,
    pub id: u32,
    pub pos: Point,
    pub connected: bool,
    pub state: String,
    pub local_messages_sent: Vec<StateLocalMessage>,
    pub local_messages_received: Vec<StateLocalMessage>,
    pub messages_sent: Vec<String>,
    pub messages_received: Vec<String>,
    pub timers: VecDeque<StateTimer>,
    pub free_timer_slots: VecDeque<usize>,
    pub color: u32,
    pub show: bool,
}

/// Whether the mouse is over the indicator of `t` on a node at `node_pos`:
/// mirrors `StateTimer::check_hovered`.
pub open spec fn spec_timer_hovered(
    t: StateTimer,
    node_pos: Point,
    offsets: Seq<Point>,
    mouse: Point,
) -> bool {
    spec_dist_sq_xy(
        spec_clip(node_pos.x + offsets[t.spec_slot_index()].x),
        spec_clip(node_pos.y + offsets[t.spec_slot_index()].y),
        mouse.x as int,
        mouse.y as int,
    ) <= TIMER_RADIUS * TIMER_RADIUS
}

/// One timer's slot step: a timer without a slot takes the front free slot if
/// one is free; a timer with a slot whose removal time has passed gives it
/// back. Returns the timer and the free slots afterwards.
pub open spec fn spec_step_timer(t0: StateTimer, free: Seq<usize>, current: int) -> (
    StateTimer,
    Seq<usize>,
) {
    if t0.k == -1 && free.len() > 0 {
        (StateTimer { k: free[0] as i32, ..t0 }, free.drop_first())
    } else if t0.k != -1 && current >= t0.time_removed {
        (t0, free.push(t0.k as usize))
    } else {
        (t0, free)
    }
}

/// One pass over a node's timers at replay time `current`: each timer is
/// stepped by `spec_step_timer`, timers whose removal time has passed leave
/// the list, and the last hovered timer (when `show` is on) is reported.
/// Returns the kept timers, the free slots, and the hovered one.
pub open spec fn spec_process_timers(
    timers: Seq<StateTimer>,
    free: Seq<usize>,
    current: int,
    show: bool,
    node_pos: Point,
    offsets: Seq<Point>,
    mouse: Point,
) -> (Seq<StateTimer>, Seq<usize>, Option<StateTimer>)
    decreases timers.len(),
{
    if timers.len() == 0 {
        (Seq::<StateTimer>::empty(), free, None::<StateTimer>)
    } else {
        let stepped = spec_step_timer(timers[0], free, current);
        let t1 = stepped.0;
        let rest = spec_process_timers(
            timers.drop_first(), stepped.1, current, show, node_pos, offsets, mouse);
        let kept = if current < t1.time_removed {
            seq![t1] + rest.0
        } else {
            rest.0
        };
        let hov = if rest.2 is Some {
            rest.2
        } else if show && spec_timer_hovered(t1, node_pos, offsets, mouse) {
            Some(t1)
        } else {
            None::<StateTimer>
        };
        (kept, rest.1, hov)
    }
}

impl StateNode {
    /// The timer slots are consistent: every slot number is in range, no slot
    /// is assigned to two timers, and no assigned slot is also free.
    pub open spec fn slots_wf(self) -> bool {
        &&& forall|i: int|
            0 <= i < self.free_timer_slots@.len()
                ==> (#[trigger] self.free_timer_slots@[i]) < TIMERS_MAX_NUMBER
        &&& forall|i: int, j: int|
            0 <= i < j < self.free_timer_slots@.len()
                ==> self.free_timer_slots@[i] != self.free_timer_slots@[j]
        &&& forall|i: int|
            0 <= i < self.timers@.len()
                ==> -1 <= (#[trigger] self.timers@[i]).k < TIMERS_MAX_NUMBER as i32
        &&& forall|i: int, j: int|
            0 <= i < j < self.timers@.len() && self.timers@[i].k >= 0 && self.timers@[j].k >= 0
                ==> self.timers@[i].k != self.timers@[j].k
        &&& forall|i: int, j: int|
            0 <= i < self.timers@.len() && 0 <= j < self.free_timer_slots@.len()
                && self.timers@[i].k >= 0
                ==> self.timers@[i].k as usize != self.free_timer_slots@[j]
    }

    pub fn new(name: String, id: u32, pos: Point, color: u32) -> (r: StateNode)
        ensures
            r.name == name && r.id == id && r.pos == pos && r.color == color,
            r.connected,
            !r.show,
            r.state@ == Seq::<char>::empty(),
            r.local_messages_sent@.len() == 0 && r.local_messages_received@.len() == 0,
            r.messages_sent@.len() == 0 && r.messages_received@.len() == 0,
            r.timers@.len() == 0,
            r.free_timer_slots@.len() == TIMERS_MAX_NUMBER,
            forall|i: int|
                0 <= i < TIMERS_MAX_NUMBER ==> (#[trigger] r.free_timer_slots@[i]) == i,
            r.slots_wf(),
    {
        let mut free: VecDeque<usize> = VecDeque::new();
        let mut s: usize = 0;
        while s < TIMERS_MAX_NUMBER
            invariant
                s <= TIMERS_MAX_NUMBER,
                free@.len() == s,
                forall|i: int| 0 <= i < s ==> (#[trigger] free@[i]) == i,
            decreases TIMERS_MAX_NUMBER - s,
        {
            free.push_back(s);
            s = s + 1;
        }
        StateNode {
            name,
            id,
            pos,
            connected: true,
            state: String::new(),
            local_messages_sent: Vec::new(),
            local_messages_received: Vec::new(),
            messages_sent: Vec::new(),
            messages_received: Vec::new(),
            timers: VecDeque::new(),
            free_timer_slots: free,
            color,
            show: false,
        }
    }

    pub fn update_pos(&mut self, new_pos: Point)
        ensures
            *final(self) == (StateNode { pos: new_pos, ..*old(self) }),
    {
        self.pos = new_pos;
    }

    pub fn get_pos(&self) -> (r: Point)
        ensures
            r == self.pos,
    {
        self.pos
    }

    pub fn make_alive(&mut self)
        ensures
            *final(self) == (StateNode { connected: true, ..*old(self) }),
    {
        self.connected = true;
    }

    pub fn make_dead(&mut self)
        ensures
            *final(self) == (StateNode { connected: false, ..*old(self) }),
    {
        self.connected = false;
    }

    /// Advances the node's timers one frame; see `spec_process_timers`. Slot
    /// consistency (`slots_wf`) is preserved.
    pub fn update(
        &mut self,
        current_time: u64,
        show_timers: bool,
        mouse_pos: Point,
        slot_offsets: &Vec<Point>,
    ) -> (hovered: Option<StateTimer>)
        requires
            old(self).slots_wf(),
            current_time <= TIME_LIMIT,
            mouse_pos.in_range(),
            slot_offsets@.len() == TIMERS_MAX_NUMBER,
        ensures
            ({
                let r = spec_process_timers(
                    old(self).timers@,
                    old(self).free_timer_slots@,
                    current_time as int,
                    show_timers,
                    old(self).pos,
                    slot_offsets@,
                    mouse_pos,
                );
                final(self).timers@ == r.0 && final(self).free_timer_slots@ == r.1
                    && hovered == r.2
            }),
            *final(self) == (StateNode {
                timers: final(self).timers,
                free_timer_slots: final(self).free_timer_slots,
                ..*old(self)
            }),
            final(self).slots_wf(),
            forall|i: int|
                0 <= i < final(self).timers@.len()
                    ==> current_time < (#[trigger] final(self).timers@[i]).time_removed,
    {
        let pos = self.pos;
        let ct: i64 = current_time as i64;
        proof {
            assert(ct as int == current_time as int);
        }
        let ghost g_timers0 = self.timers@;
        let ghost g_free0 = self.free_timer_slots@;
        let ghost cur = current_time as int;
        let mut kept: VecDeque<StateTimer> = VecDeque::new();
        let mut hovered: Option<StateTimer> = None;

        loop
            invariant
                self.slots_wf(),
                current_time <= TIME_LIMIT,
                ct as int == cur && cur == current_time as int,
                mouse_pos.in_range(),
                slot_offsets@.len() == TIMERS_MAX_NUMBER,
                // the kept prefix only holds live timers with in-range,
                // mutually distinct slots, also distinct from the free and
                // the still unprocessed ones
                forall|i: int|
                    0 <= i < kept@.len() ==> -1 <= (#[trigger] kept@[i]).k < 9,
                forall|i: int, j: int|
                    0 <= i < j < kept@.len() && kept@[i].k >= 0 && kept@[j].k >= 0
                        ==> kept@[i].k != kept@[j].k,
                forall|i: int, j: int|
                    0 <= i < kept@.len() && 0 <= j < self.free_timer_slots@.len()
                        && kept@[i].k >= 0
                        ==> kept@[i].k as usize != self.free_timer_slots@[j],
                forall|i: int, j: int|
                    0 <= i < kept@.len() && 0 <= j < self.timers@.len() && kept@[i].k >= 0
                        && self.timers@[j].k >= 0
                        ==> kept@[i].k != self.timers@[j].k,
                forall|i: int|
                    0 <= i < kept@.len() ==> cur < (#[trigger] kept@[i]).time_removed,
                // what remains to fold equals the whole fold
                ({
                    let whole = spec_process_timers(
                        g_timers0, g_free0, cur, show_timers, pos, slot_offsets@, mouse_pos);
                    let rest = spec_process_timers(
                        self.timers@, self.free_timer_slots@, cur, show_timers, pos,
                        slot_offsets@, mouse_pos);
                    whole.0 == kept@ + rest.0 && whole.1 == rest.1
                        && whole.2 == (if rest.2 is Some { rest.2 } else { hovered })
                }),
                pos == old(self).pos,
                *old(self) == (StateNode {
                    timers: old(self).timers,
                    free_timer_slots: old(self).free_timer_slots,
                    ..*self
                }),
            ensures
                self.timers@.len() == 0,
                forall|i: int|
                    0 <= i < kept@.len() ==> -1 <= (#[trigger] kept@[i]).k < 9,
                forall|i: int, j: int|
                    0 <= i < j < kept@.len() && kept@[i].k >= 0 && kept@[j].k >= 0
                        ==> kept@[i].k != kept@[j].k,
                forall|i: int, j: int|
                    0 <= i < kept@.len() && 0 <= j < self.free_timer_slots@.len()
                        && kept@[i].k >= 0
                        ==> kept@[i].k as usize != self.free_timer_slots@[j],
                forall|i: int|
                    0 <= i < kept@.len() ==> cur < (#[trigger] kept@[i]).time_removed,
                forall|i: int|
                    0 <= i < self.free_timer_slots@.len()
                        ==> (#[trigger] self.free_timer_slots@[i]) < TIMERS_MAX_NUMBER,
                forall|i: int, j: int|
                    0 <= i < j < self.free_timer_slots@.len()
                        ==> self.free_timer_slots@[i] != self.free_timer_slots@[j],
                ({
                    let whole = spec_process_timers(
                        g_timers0, g_free0, cur, show_timers, pos, slot_offsets@, mouse_pos);
                    whole.0 == kept@ && whole.1 == self.free_timer_slots@ && whole.2 == hovered
                }),
                *old(self) == (StateNode {
                    timers: old(self).timers,
                    free_timer_slots: old(self).free_timer_slots,
                    ..*self
                }),
            decreases self.timers@.len(),
        {
            let ghost rem0 = self.timers@;
            let ghost free0 = self.free_timer_slots@;
            let ghost kept0 = kept@;
            let next = self.timers.pop_front();
            match next {
                None => {
                    proof {
                        let rest = spec_process_timers(
                            self.timers@, self.free_timer_slots@, cur, show_timers, pos,
                            slot_offsets@, mouse_pos);
                        assert(kept@ + rest.0 =~= kept@);
                    }
                    break;
                },
                Some(mut t) => {
                    if t.k == -1 {
                        if self.free_timer_slots.len() > 0 {
                            let slot = self.free_timer_slots.pop_front().unwrap();
                            t.k = slot as i32;
                        }
                    } else if ct >= t.time_removed {
                        self.free_timer_slots.push_back(t.k as usize);
                    }
                    let is_hit = show_timers && t.check_hovered(pos, slot_offsets, mouse_pos);
                    if is_hit {
                        hovered = Some(t.clone());
                    }
                    let live = ct < t.time_removed;
                    if live {
                        kept.push_back(t);
                    }
                    proof {
                        let st = spec_step_timer(rem0[0], free0, cur);
                        assert(t == st.0);
                        assert(self.timers@ =~= rem0.drop_first());
                        assert(self.free_timer_slots@ =~= st.1);
                        let step = spec_process_timers(
                            rem0, free0, cur, show_timers, pos, slot_offsets@, mouse_pos);
                        let rest = spec_process_timers(
                            self.timers@, self.free_timer_slots@, cur, show_timers, pos,
                            slot_offsets@, mouse_pos);
                        assert(step.0 == if live { seq![t] + rest.0 } else { rest.0 });
                        if live {
                            assert(kept@ =~= kept0.push(t));
                            assert(kept0 + (seq![t] + rest.0) =~= kept0.push(t) + rest.0);
                        }
                    }
                },
            }
        }
        self.timers = kept;
        hovered
    }

    /// The first of the node's timers the mouse is over, if any.
    pub fn check_for_hovered_timer(&self, mouse_pos: Point, slot_offsets: &Vec<Point>) -> (r:
        Option<StateTimer>)
        requires
            self.slots_wf(),
            mouse_pos.in_range(),
            slot_offsets@.len() == TIMERS_MAX_NUMBER,
        ensures
            r == spec_node_hover(self.timers@, self.pos, slot_offsets@, mouse_pos),
    {
        let mut i: usize = 0;
        proof {
            assert(self.timers@.skip(0) =~= self.timers@);
        }
        while i < self.timers.len()
            invariant
                self.slots_wf(),
                mouse_pos.in_range(),
                slot_offsets@.len() == TIMERS_MAX_NUMBER,
                i <= self.timers@.len(),
                spec_node_hover(self.timers@, self.pos, slot_offsets@, mouse_pos)
                    == spec_node_hover(
                    self.timers@.skip(i as int),
                    self.pos,
                    slot_offsets@,
                    mouse_pos,
                ),
            decreases self.timers@.len() - i,
        {
            let t = &self.timers[i];
            proof {
                assert(self.timers@.skip(i as int)[0] == self.timers@[i as int]);
                assert(self.timers@.skip(i as int).drop_first() =~= self.timers@.skip(
                    i as int + 1));
            }
            if t.check_hovered(self.pos, slot_offsets, mouse_pos) {
                let r = t.clone();
                return Some(r);
            }
            i = i + 1;
        }
        proof {
            assert(self.timers@.skip(self.timers@.len() as int) =~= Seq::<StateTimer>::empty());
        }
        None
    }
}

/// The first timer of `timers` whose indicator the mouse is over, if any.
pub open spec fn spec_node_hover(
    timers: Seq<StateTimer>,
    node_pos: Point,
    offsets: Seq<Point>,
    mouse: Point,
) -> Option<StateTimer>
    decreases timers.len(),
{
    if timers.len() == 0 {
        None::<StateTimer>
    } else if spec_timer_hovered(timers[0], node_pos, offsets, mouse) {
        Some(timers[0])
    } else {
        spec_node_hover(timers.drop_first(), node_pos, offsets, mouse)
    }
}

} // verus!
