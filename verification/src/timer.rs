//! A timer indicator: a small radial gauge attached to a node, occupying one
//! of the node's indicator slots from when the timer is set until the replay
//! clock passes its recorded removal time.

use vstd::prelude::*;
use crate::utilities::{
    spec_dist_sq_xy, spec_clip, dist_sq, clip_coord, Point, TIMER_RADIUS, TIMER_COLOR,
    READY_TIMER_COLOR, CANCELLED_TIMER_COLOR, TIMERS_MAX_NUMBER, COORD_LIMIT,
};

verus! {

/// A timer attached to a node. `time_removed` is negative when the log never
/// records the timer firing or being cancelled; `k` is the indicator slot the
/// node assigned, or -1 while none is free.
#[derive(Debug)]
pub struct StateTimer {
    pub id: String,
    pub name: String,
    pub time_set: u64,
    pub node: String,
    pub delay: u64,
    pub time_removed: i64,
    pub k: i32,
}

impl Clone for StateTimer {
    fn clone(&self) -> (r: Self)
        ensures
            r == *self,
    {
        StateTimer {
            id: self.id.clone(),
            name: self.name.clone(),
            time_set: self.time_set,
            node: self.node.clone(),
            delay: self.delay,
            time_removed: self.time_removed,
            k: self.k,
        }
    }
}

impl StateTimer {
    pub fn new(
        id: String,
        name: String,
        time_set: u64,
        node: String,
        delay: u64,
        time_removed: i64,
    ) -> (r: StateTimer)
        ensures
            r.id == id && r.name == name && r.time_set == time_set && r.node == node
                && r.delay == delay && r.time_removed == time_removed,
            r.k == -1,
    {
        StateTimer { id, name, time_set, node, delay, time_removed, k: -1 }
    }

    /// The slot whose ring offset places this indicator: slot `k`, or the last
    /// slot for an unassigned timer (whose angle coincides with it).
    pub open spec fn spec_slot_index(self) -> int {
        if self.k < 0 {
            TIMERS_MAX_NUMBER - 1
        } else {
            self.k as int % TIMERS_MAX_NUMBER as int
        }
    }

    /// Where this indicator sits: the node's position plus the ring offset of
    /// its slot, clipped to the working range.
    pub fn get_position(&self, node_pos: Point, slot_offsets: &Vec<Point>) -> (r: Point)
        requires
            slot_offsets@.len() == TIMERS_MAX_NUMBER,
            self.k >= -1,
        ensures
            r.x == spec_clip(node_pos.x + slot_offsets@[self.spec_slot_index()].x),
            r.y == spec_clip(node_pos.y + slot_offsets@[self.spec_slot_index()].y),
            r.in_range(),
    {
        let idx: usize = if self.k < 0 {
            TIMERS_MAX_NUMBER - 1
        } else {
            (self.k as usize) % TIMERS_MAX_NUMBER
        };
        let off = slot_offsets[idx];
        let x = if node_pos.x >= 0 && off.x >= 0 && node_pos.x > i64::MAX - off.x {
            COORD_LIMIT
        } else if node_pos.x < 0 && off.x < 0 && node_pos.x < i64::MIN - off.x {
            -COORD_LIMIT
        } else {
            clip_coord(node_pos.x + off.x)
        };
        let y = if node_pos.y >= 0 && off.y >= 0 && node_pos.y > i64::MAX - off.y {
            COORD_LIMIT
        } else if node_pos.y < 0 && off.y < 0 && node_pos.y < i64::MIN - off.y {
            -COORD_LIMIT
        } else {
            clip_coord(node_pos.y + off.y)
        };
        Point { x, y }
    }

    /// Whether the mouse is over this indicator: within the timer radius of
    /// its position.
    pub fn check_hovered(&self, node_pos: Point, slot_offsets: &Vec<Point>, mouse_pos: Point) -> (r:
        bool)
        requires
            slot_offsets@.len() == TIMERS_MAX_NUMBER,
            self.k >= -1,
            mouse_pos.in_range(),
        ensures
            r == (spec_dist_sq_xy(
                spec_clip(node_pos.x + slot_offsets@[self.spec_slot_index()].x),
                spec_clip(node_pos.y + slot_offsets@[self.spec_slot_index()].y),
                mouse_pos.x as int,
                mouse_pos.y as int,
            ) <= TIMER_RADIUS * TIMER_RADIUS),
    {
        let pos = self.get_position(node_pos, slot_offsets);
        dist_sq(pos, mouse_pos) <= (TIMER_RADIUS * TIMER_RADIUS) as u64
    }

    /// The gauge color at a given replay time: the running color until the
    /// clock is close to the recorded removal time, then the cancelled color
    /// when the timer was removed before its full delay, else the fired color.
    pub fn draw_color(&self, current_time: u64) -> (r: u32)
        requires
            current_time <= 0x10000000000000,
            -1 <= self.time_removed <= 0x10000000000000,
            self.time_set <= 0x10000000000000,
            self.delay <= 0x10000000000000,
        ensures
            r == if 20 * current_time >= 19 * self.time_removed {
                if self.time_removed < self.time_set + self.delay {
                    CANCELLED_TIMER_COLOR
                } else {
                    READY_TIMER_COLOR
                }
            } else {
                TIMER_COLOR
            },
    {
        if 20 * (current_time as i64) >= 19 * self.time_removed {
            if self.time_removed < self.time_set as i64 + self.delay as i64 {
                CANCELLED_TIMER_COLOR
            } else {
                READY_TIMER_COLOR
            }
        } else {
            TIMER_COLOR
        }
    }
}

} // verus!
