//! A travelling message: a dot that moves from its source node toward its
//! destination node, at a speed chosen so that it arrives at its recorded
//! delivery time, and that reports its delivery or drop.

use vstd::prelude::*;
use crate::utilities::{
    spec_dist_sq, spec_isqrt, spec_clip, dist_sq, isqrt, clip_coord, Point, COORD_LIMIT,
    TIME_LIMIT, MAX_MESSAGE_SPEED, MAX_GLOBAL_SPEED, COLOR_BLACK,
};

verus! {

/// Where a message stands in its life: waiting for its send time, moving,
/// lost on the way, or arrived.
#[derive(Clone, Copy, Debug, PartialEq, Eq, Structural)]
pub enum MessageStatus {
    Queued,
    OnTheWay,
    Dropped,
    Delivered,
}

/// A message of the replayed run. `src` and `dest` index the state's node
/// list; `copies_received` is 0 when the log never records a receipt (the
/// message was lost) and above 1 when it records duplicates.
#[derive(Debug, Clone)]
pub struct StateMessage {
    pub id: String,
    pub pos: Point,
    pub src: usize,
    pub dest: usize,
    pub tip: String,
    pub data: String,
    pub status: MessageStatus,
    pub time_sent: u64,
    pub time_delivered: u64,
    pub copies_received: u64,
    pub last_color_change: u64,
    pub color: u32,
}

/// One coordinate of a move of `step` thousandths of a pixel from `p` toward
/// a target `d` away along this axis, for a straight-line distance of `len`
/// pixels: the axis gets its share `|d| / len` of the step, rounded up to a
/// whole pixel so that a nonzero step always makes progress, and the result
/// is clipped to the working range.
pub open spec fn spec_move_coord(p: int, d: int, step: int, len: int) -> int {
    if len <= 0 {
        p
    } else {
        let q = ((if d >= 0 { d } else { -d }) * step + 1000 * len - 1) / (1000 * len);
        let qc = if q > 3 * COORD_LIMIT { 3 * COORD_LIMIT as int } else { q };
        spec_clip(p + (if d >= 0 { qc } else { -qc }))
    }
}

/// `m1` is `m0` moved as far as it would travel during `delta` ticks of
/// replay time at clock `ct` and replay speed `global` (in thousandths), with
/// nothing else changed: the relation `update_with_jump` establishes.
pub open spec fn spec_msg_jumped(
    m0: StateMessage,
    m1: StateMessage,
    global: u64,
    ct: u64,
    delta: u64,
    dest_pos: Point,
) -> bool {
    let len = spec_isqrt(spec_dist_sq(m0.pos, dest_pos) as nat) as int;
    let step = m0.spec_own_speed(ct, dest_pos) * global * delta / 1000000;
    &&& m1.pos.x == spec_move_coord(m0.pos.x as int, dest_pos.x - m0.pos.x, step, len)
    &&& m1.pos.y == spec_move_coord(m0.pos.y as int, dest_pos.y - m0.pos.y, step, len)
    &&& m1.pos.in_range()
    &&& m1 == (StateMessage { pos: m1.pos, ..m0 })
}

/// `m1` is `m0` after one frame at replay clock `ct`, speed `global` and real
/// time `now`: moved one step toward `dest_pos`, its color kept in step (a
/// lost message blinks, any other shows its source's color), and its status
/// settled by the arrival test on the moved position — the composition of
/// `update` and `update_status`.
pub open spec fn spec_msg_frame_stepped(
    m0: StateMessage,
    m1: StateMessage,
    global: u64,
    ct: u64,
    now: u64,
    src_pos: Point,
    dest_pos: Point,
    src_color: u32,
    src_id: u32,
    dest_id: u32,
) -> bool {
    let len = spec_isqrt(spec_dist_sq(m0.pos, dest_pos) as nat) as int;
    let step = m0.spec_own_speed(ct, dest_pos) * global / 1000;
    let blink = m0.copies_received == 0 && now >= m0.last_color_change + 300;
    let moved = StateMessage {
        pos: m1.pos,
        color: m1.color,
        last_color_change: m1.last_color_change,
        ..m0
    };
    &&& m1.pos.x == spec_move_coord(m0.pos.x as int, dest_pos.x - m0.pos.x, step, len)
    &&& m1.pos.y == spec_move_coord(m0.pos.y as int, dest_pos.y - m0.pos.y, step, len)
    &&& m1.color == if blink {
        if m0.color == COLOR_BLACK {
            src_color
        } else {
            COLOR_BLACK
        }
    } else if m0.copies_received != 0 {
        src_color
    } else {
        m0.color
    }
    &&& m1.last_color_change == if blink {
        now
    } else {
        m0.last_color_change
    }
    &&& m1.status == (if moved.spec_is_delivered(ct, src_pos, dest_pos) {
        if m0.copies_received == 0 && src_id != dest_id {
            MessageStatus::Dropped
        } else {
            MessageStatus::Delivered
        }
    } else {
        m0.status
    })
    &&& m1 == (StateMessage {
        pos: m1.pos,
        color: m1.color,
        last_color_change: m1.last_color_change,
        status: m1.status,
        ..m0
    })
}

/// The point `step` thousandths of a pixel along the straight line from
/// `pos` toward `dest_pos` (or past it, when the step is longer than the
/// remaining distance); `pos` itself when the two coincide.
pub fn move_toward(pos: Point, dest_pos: Point, step_milli: u128) -> (r: Point)
    requires
        pos.in_range(),
        dest_pos.in_range(),
        step_milli < 0x10000000000000000000000000,
    ensures
        ({
            let len = spec_isqrt(spec_dist_sq(pos, dest_pos) as nat) as int;
            r.x == spec_move_coord(pos.x as int, dest_pos.x - pos.x, step_milli as int, len)
                && r.y == spec_move_coord(pos.y as int, dest_pos.y - pos.y, step_milli as int, len)
        }),
        r.in_range(),
{
    proof {
        crate::utilities::lemma_dist_sq_bound(pos, dest_pos);
    }
    let d2 = dist_sq(pos, dest_pos);
    let len = isqrt(d2);
    if len == 0 {
        return pos;
    }
    let dx: i64 = dest_pos.x - pos.x;
    let dy: i64 = dest_pos.y - pos.y;
    let adx: u64 = if dx >= 0 { dx as u64 } else { (-dx) as u64 };
    let ady: u64 = if dy >= 0 { dy as u64 } else { (-dy) as u64 };
    proof {
        assert(adx <= 2097152 && ady <= 2097152);
        assert(adx * step_milli <= 2097152 * 0x10000000000000000000000000) by (nonlinear_arith)
            requires adx <= 2097152, 0 <= step_milli <= 0x10000000000000000000000000;
        assert(ady * step_milli <= 2097152 * 0x10000000000000000000000000) by (nonlinear_arith)
            requires ady <= 2097152, 0 <= step_milli <= 0x10000000000000000000000000;
        assert(1000 * (len as int) <= 1000 * 0xffffffffffffffffint) by (nonlinear_arith)
            requires len <= 0xffffffffffffffffu64;
    }
    let div: u128 = 1000u128 * (len as u128);
    let qx: u128 = ((adx as u128) * step_milli + (div - 1)) / div;
    let qy: u128 = ((ady as u128) * step_milli + (div - 1)) / div;
    let qcx: i64 = if qx > (3 * COORD_LIMIT) as u128 { 3 * COORD_LIMIT } else { qx as i64 };
    let qcy: i64 = if qy > (3 * COORD_LIMIT) as u128 { 3 * COORD_LIMIT } else { qy as i64 };
    let x = clip_coord(if dx >= 0 { pos.x + qcx } else { pos.x - qcx });
    let y = clip_coord(if dy >= 0 { pos.y + qcy } else { pos.y - qcy });
    Point { x, y }
}

impl StateMessage {
    /// The speed this message moves at, in thousandths of a pixel per frame:
    /// the remaining distance spread over the frames left until its delivery
    /// time; a three-second crossing for a lost message; the maximum once the
    /// delivery time has passed.
    pub open spec fn spec_own_speed(self, current_time: u64, dest_pos: Point) -> int {
        let len = spec_isqrt(spec_dist_sq(self.pos, dest_pos) as nat) as int;
        if self.copies_received == 0 {
            1000 * len / 180
        } else if current_time < self.time_delivered {
            1000000 * len / (60 * (self.time_delivered - current_time))
        } else {
            MAX_MESSAGE_SPEED as int
        }
    }

    /// Whether this message counts as arrived: within five pixels of its
    /// destination or past its delivery time; for a lost message, having
    /// covered a quarter of the way from its source.
    pub open spec fn spec_is_delivered(
        self,
        current_time: u64,
        src_pos: Point,
        dest_pos: Point,
    ) -> bool {
        if self.copies_received != 0 {
            spec_dist_sq(self.pos, dest_pos) < 25 || current_time >= self.time_delivered
        } else {
            16 * spec_dist_sq(src_pos, self.pos) >= spec_dist_sq(src_pos, dest_pos)
        }
    }

    pub fn new(
        id: String,
        src: usize,
        dest: usize,
        tip: String,
        data: String,
        status: MessageStatus,
        time_sent: u64,
        time_delivered: u64,
        copies_received: u64,
        src_pos: Point,
        src_color: u32,
    ) -> (r: StateMessage)
        ensures
            r.id == id && r.src == src && r.dest == dest && r.tip == tip && r.data == data
                && r.status == status && r.time_sent == time_sent
                && r.time_delivered == time_delivered && r.copies_received == copies_received,
            r.pos == src_pos,
            r.color == src_color,
            r.last_color_change == 0,
    {
        StateMessage {
            id,
            pos: src_pos,
            src,
            dest,
            tip,
            data,
            status,
            time_sent,
            time_delivered,
            copies_received,
            last_color_change: 0,
            color: src_color,
        }
    }

    pub fn update_pos(&mut self, new_pos: Point)
        ensures
            *final(self) == (StateMessage { pos: new_pos, ..*old(self) }),
    {
        self.pos = new_pos;
    }

    pub fn get_pos(&self) -> (r: Point)
        ensures
            r == self.pos,
    {
        self.pos
    }

    /// The vector from this message's position to its destination.
    pub fn get_direction(&self, dest_pos: Point) -> (r: Point)
        requires
            self.pos.in_range(),
            dest_pos.in_range(),
        ensures
            r.x == dest_pos.x - self.pos.x,
            r.y == dest_pos.y - self.pos.y,
    {
        Point { x: dest_pos.x - self.pos.x, y: dest_pos.y - self.pos.y }
    }

    /// The speed this message moves at; see `spec_own_speed`.
    pub fn get_own_speed(&self, current_time: u64, dest_pos: Point) -> (r: u64)
        requires
            self.pos.in_range(),
            dest_pos.in_range(),
        ensures
            r == self.spec_own_speed(current_time, dest_pos),
            r <= 50000000000,
    {
        proof {
            crate::utilities::lemma_dist_sq_bound(self.pos, dest_pos);
        }
        let d2 = dist_sq(self.pos, dest_pos);
        let len = isqrt(d2);
        proof {
            assert(len < 3000000) by (nonlinear_arith)
                requires len * len <= d2, d2 <= 0x80000000000;
        }
        if self.copies_received == 0 {
            1000 * len / 180
        } else if current_time < self.time_delivered {
            let ttl = self.time_delivered - current_time;
            if ttl <= 50000000000 {
                proof {
                    vstd::arithmetic::div_mod::lemma_div_is_ordered_by_denominator(
                        1000000 * len as int, 60, 60 * ttl as int);
                    vstd::arithmetic::div_mod::lemma_div_is_ordered(
                        1000000 * len as int, 2999999000000, 60);
                }
                (1000000 * len) / (60 * ttl)
            } else {
                proof {
                    assert(60 * ttl > 1000000 * len) by (nonlinear_arith)
                        requires len < 3000000, ttl > 50000000000;
                    vstd::arithmetic::div_mod::lemma_basic_div(
                        1000000 * len as int, 60 * ttl as int);
                }
                0
            }
        } else {
            MAX_MESSAGE_SPEED
        }
    }

    /// Moves the message one frame along its way, and keeps its color in
    /// step: a lost message blinks between black and its source's color every
    /// 300 ticks of real time, any other message shows its source's color.
    pub fn update(&mut self, global_speed: u64, current_time: u64, now: u64, src_color: u32,
        dest_pos: Point)
        requires
            old(self).pos.in_range(),
            dest_pos.in_range(),
            global_speed <= MAX_GLOBAL_SPEED,
            now <= TIME_LIMIT,
            old(self).last_color_change <= TIME_LIMIT,
        ensures
            ({
                let step = old(self).spec_own_speed(current_time, dest_pos) * global_speed / 1000;
                let len = spec_isqrt(spec_dist_sq(old(self).pos, dest_pos) as nat) as int;
                final(self).pos.x == spec_move_coord(
                    old(self).pos.x as int, dest_pos.x - old(self).pos.x, step, len)
                    && final(self).pos.y == spec_move_coord(
                    old(self).pos.y as int, dest_pos.y - old(self).pos.y, step, len)
            }),
            final(self).pos.in_range(),
            ({
                let blink = old(self).copies_received == 0
                    && now >= old(self).last_color_change + 300;
                &&& final(self).color == if blink {
                    if old(self).color == COLOR_BLACK { src_color } else { COLOR_BLACK }
                } else if old(self).copies_received != 0 {
                    src_color
                } else {
                    old(self).color
                }
                &&& final(self).last_color_change == if blink {
                    now
                } else {
                    old(self).last_color_change
                }
            }),
            *final(self) == (StateMessage {
                pos: final(self).pos,
                color: final(self).color,
                last_color_change: final(self).last_color_change,
                ..*old(self)
            }),
    {
        let own_speed = self.get_own_speed(current_time, dest_pos);
        proof {
            assert(own_speed as int * global_speed as int <= 50000000000000000000int)
                by (nonlinear_arith)
                requires 0 <= own_speed <= 50000000000, 0 <= global_speed <= 1000000000;
            vstd::arithmetic::div_mod::lemma_div_is_ordered(
                own_speed as int * global_speed as int, 50000000000000000000int, 1000int);
        }
        let step: u128 = (own_speed as u128) * (global_speed as u128) / 1000;
        let new_pos = move_toward(self.pos, dest_pos, step);
        self.pos = new_pos;

        if self.copies_received == 0 && now >= self.last_color_change + 300 {
            self.color = if self.color == COLOR_BLACK { src_color } else { COLOR_BLACK };
            self.last_color_change = now;
        } else if self.copies_received != 0 {
            self.color = src_color;
        }
    }

    /// Moves the message as far as it would have travelled during `delta`
    /// ticks of replay time, when the clock is scrubbed.
    pub fn update_with_jump(&mut self, global_speed: u64, current_time: u64, delta: u64,
        dest_pos: Point)
        requires
            old(self).pos.in_range(),
            dest_pos.in_range(),
            global_speed <= MAX_GLOBAL_SPEED,
            delta <= TIME_LIMIT,
        ensures
            ({
                let step = old(self).spec_own_speed(current_time, dest_pos) * global_speed * delta
                    / 1000000;
                let len = spec_isqrt(spec_dist_sq(old(self).pos, dest_pos) as nat) as int;
                final(self).pos.x == spec_move_coord(
                    old(self).pos.x as int, dest_pos.x - old(self).pos.x, step, len)
                    && final(self).pos.y == spec_move_coord(
                    old(self).pos.y as int, dest_pos.y - old(self).pos.y, step, len)
            }),
            final(self).pos.in_range(),
            *final(self) == (StateMessage { pos: final(self).pos, ..*old(self) }),
            spec_msg_jumped(*old(self), *final(self), global_speed, current_time, delta, dest_pos),
    {
        let own_speed = self.get_own_speed(current_time, dest_pos);
        proof {
            assert(own_speed as int * global_speed as int <= 50000000000000000000int)
                by (nonlinear_arith)
                requires 0 <= own_speed <= 50000000000, 0 <= global_speed <= 1000000000;
            assert(own_speed as int * global_speed as int * delta as int
                <= 56294995342131200000000000000000000int) by (nonlinear_arith)
                requires 0 <= own_speed as int * global_speed as int <= 50000000000000000000int,
                    0 <= delta <= 0x4000000000000;
            vstd::arithmetic::div_mod::lemma_div_is_ordered(
                own_speed as int * global_speed as int * delta as int,
                56294995342131200000000000000000000int,
                1000000int,
            );
        }
        let step: u128 = (own_speed as u128) * (global_speed as u128) * (delta as u128) / 1000000;
        let new_pos = move_toward(self.pos, dest_pos, step);
        self.pos = new_pos;
    }

    /// True when the log never records a receipt: the message was lost.
    pub fn is_dropped(&self) -> (r: bool)
        ensures
            r == (self.copies_received == 0),
    {
        self.copies_received == 0
    }

    /// True when the log records more than one receipt.
    pub fn is_duplicated(&self) -> (r: bool)
        ensures
            r == (self.copies_received > 1),
    {
        self.copies_received > 1
    }

    /// Whether this message counts as arrived; see `spec_is_delivered`.
    pub fn is_delivered(&self, current_time: u64, src_pos: Point, dest_pos: Point) -> (r: bool)
        requires
            self.pos.in_range(),
            src_pos.in_range(),
            dest_pos.in_range(),
        ensures
            r == self.spec_is_delivered(current_time, src_pos, dest_pos),
    {
        if self.copies_received != 0 {
            dist_sq(self.pos, dest_pos) < 25 || current_time >= self.time_delivered
        } else {
            proof {
                crate::utilities::lemma_dist_sq_bound(src_pos, self.pos);
            }
            16 * dist_sq(src_pos, self.pos) >= dist_sq(src_pos, dest_pos)
        }
    }

    /// Marks the message delivered once it arrives; a lost message whose
    /// source and destination differ is marked dropped instead.
    pub fn update_status(&mut self, current_time: u64, src_pos: Point, dest_pos: Point,
        src_id: u32, dest_id: u32)
        requires
            old(self).pos.in_range(),
            src_pos.in_range(),
            dest_pos.in_range(),
        ensures
            final(self).status == if old(self).spec_is_delivered(current_time, src_pos, dest_pos) {
                if old(self).copies_received == 0 && src_id != dest_id {
                    MessageStatus::Dropped
                } else {
                    MessageStatus::Delivered
                }
            } else {
                old(self).status
            },
            *final(self) == (StateMessage { status: final(self).status, ..*old(self) }),
    {
        if self.is_delivered(current_time, src_pos, dest_pos) {
            self.status = if self.copies_received == 0 && src_id != dest_id {
                MessageStatus::Dropped
            } else {
                MessageStatus::Delivered
            };
        }
    }

    pub fn set_status(&mut self, status: MessageStatus)
        ensures
            *final(self) == (StateMessage { status: status, ..*old(self) }),
    {
        self.status = status;
    }

    /// Puts the message back on its source node, where its journey starts.
    pub fn update_start_pos(&mut self, src_pos: Point)
        ensures
            *final(self) == (StateMessage { pos: src_pos, ..*old(self) }),
    {
        self.pos = src_pos;
    }
}

} // verus!
