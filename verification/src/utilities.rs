//! Shared constants, integer plane geometry, and the JSON pretty-printing
//! helper used when displaying recorded node state.

use vstd::prelude::*;

verus! {

/// Radius of a node circle, in pixels.
pub const NODE_RADIUS: u64 = 15;

/// Radius of a travelling message dot, in pixels.
pub const MESSAGE_RADIUS: u64 = 5;

/// Radius of the ring on which nodes are laid out, in pixels.
pub const CIRCLE_RADIUS: u64 = 150;

/// Radius of the ring used for each half of a partitioned layout, in pixels.
pub const PARTITIONED_CIRCLE_RADIUS: u64 = 100;

/// Radius of a timer indicator, in pixels.
pub const TIMER_RADIUS: u64 = 8;

/// Frames per second assumed by the per-frame motion formulas.
pub const FPS: u64 = 60;

/// Replay-clock ticks per second of replay time.
pub const TICKS_PER_SEC: u64 = 1000;

/// Initial replay speed, in thousandths (1000 = real time).
pub const DEFAULT_GLOBAL_SPEED: u64 = 1000;

/// Step by which the up and down keys change the replay speed, in thousandths.
pub const GLOBAL_SPEED_DELTA: u64 = 20;

/// Largest replay speed the speed keys can reach, in thousandths.
pub const MAX_GLOBAL_SPEED: u64 = 1000000000;

/// Speed given to a message whose delivery time already passed, in
/// thousandths of a pixel per frame.
pub const MAX_MESSAGE_SPEED: u64 = 30000;

/// A press and release within this many ticks counts as a single click.
pub const SINGLE_CLICK_DELAY: u64 = 300;

/// Number of timer indicator slots around each node.
pub const TIMERS_MAX_NUMBER: usize = 9;

/// Coordinates are kept within this many pixels of the origin, so that
/// squared distances cannot overflow.
pub const COORD_LIMIT: i64 = 1048576;

/// Replay times and real times are kept within this many ticks, so that the
/// motion formulas cannot overflow.
pub const TIME_LIMIT: u64 = 0x4000000000000;

/// Color code for black, used for the blink of a dropped message.
pub const COLOR_BLACK: u32 = 0;

pub const COLOR_ORANGE: u32 = 1;

pub const COLOR_YELLOW: u32 = 2;

pub const COLOR_GREEN: u32 = 3;

pub const COLOR_SKYBLUE: u32 = 4;

pub const COLOR_BLUE: u32 = 5;

pub const COLOR_PURPLE: u32 = 6;

pub const COLOR_GOLD: u32 = 7;

pub const COLOR_LIGHTGRAY: u32 = 8;

pub const COLOR_PINK: u32 = 9;

pub const COLOR_LIME: u32 = 10;

pub const COLOR_VIOLET: u32 = 11;

pub const COLOR_WHITE: u32 = 12;

pub const COLOR_MAGENTA: u32 = 13;

pub const COLOR_RED: u32 = 15;

/// Color code given to a node when the palette is exhausted.
pub const DEFAULT_NODE_COLOR: u32 = 14;

/// Color of a disconnected node's circle.
pub const DEAD_NODE_COLOR: u32 = 15;

/// Color of a running timer indicator.
pub const TIMER_COLOR: u32 = 1;

/// Color of a timer indicator whose timer fired.
pub const READY_TIMER_COLOR: u32 = 3;

/// Color of a timer indicator whose timer was cancelled early.
pub const CANCELLED_TIMER_COLOR: u32 = 15;

/// A point of the drawing plane, in integer pixel coordinates.
#[derive(Clone, Copy, Debug, PartialEq, Eq, Structural)]
pub struct Point {
    pub x: i64,
    pub y: i64,
}

impl Point {
    /// True when both coordinates are within the working range of the plane.
    pub open spec fn in_range(self) -> bool {
        -COORD_LIMIT <= self.x <= COORD_LIMIT && -COORD_LIMIT <= self.y <= COORD_LIMIT
    }

    pub fn new(x: i64, y: i64) -> (r: Point)
        ensures
            r.x == x && r.y == y,
    {
        Point { x, y }
    }
}

/// `v` brought into the working coordinate range.
pub open spec fn spec_clip(v: int) -> int {
    if v < -COORD_LIMIT {
        -COORD_LIMIT as int
    } else if v > COORD_LIMIT {
        COORD_LIMIT as int
    } else {
        v
    }
}

/// Brings a coordinate into the working range of the plane.
pub fn clip_coord(v: i64) -> (r: i64)
    ensures
        r == spec_clip(v as int),
{
    if v < -COORD_LIMIT {
        -COORD_LIMIT
    } else if v > COORD_LIMIT {
        COORD_LIMIT
    } else {
        v
    }
}

/// Squared Euclidean distance between coordinates given as mathematical
/// integers.
pub open spec fn spec_dist_sq_xy(ax: int, ay: int, bx: int, by: int) -> int {
    (ax - bx) * (ax - bx) + (ay - by) * (ay - by)
}

/// Squared Euclidean distance between two points.
pub open spec fn spec_dist_sq(a: Point, b: Point) -> int {
    spec_dist_sq_xy(a.x as int, a.y as int, b.x as int, b.y as int)
}

/// The largest value `spec_dist_sq` can take on in-range points.
pub proof fn lemma_dist_sq_bound(a: Point, b: Point)
    requires
        a.in_range(),
        b.in_range(),
    ensures
        0 <= spec_dist_sq(a, b) <= 0x80000000000,
{
    let dx = a.x - b.x;
    let dy = a.y - b.y;
    assert(dx * dx <= 0x40000000000 && dx * dx >= 0) by (nonlinear_arith)
        requires -2097152 <= dx <= 2097152;
    assert(dy * dy <= 0x40000000000 && dy * dy >= 0) by (nonlinear_arith)
        requires -2097152 <= dy <= 2097152;
}

/// Squared distance between two in-range points.
pub fn dist_sq(a: Point, b: Point) -> (r: u64)
    requires
        a.in_range(),
        b.in_range(),
    ensures
        r == spec_dist_sq(a, b),
{
    proof {
        lemma_dist_sq_bound(a, b);
    }
    let dx: i64 = a.x - b.x;
    let dy: i64 = a.y - b.y;
    proof {
        assert(dx * dx >= 0 && dx * dx <= 0x40000000000000) by (nonlinear_arith)
            requires -2097152 <= dx <= 2097152;
        assert(dy * dy >= 0 && dy * dy <= 0x40000000000000) by (nonlinear_arith)
            requires -2097152 <= dy <= 2097152;
    }
    (dx * dx) as u64 + (dy * dy) as u64
}

/// Integer square root, as a mathematical function: the largest `r` with
/// `r * r <= n`.
pub open spec fn spec_isqrt(n: nat) -> nat
    decreases n,
{
    if n == 0 {
        0
    } else {
        let p = spec_isqrt((n - 1) as nat);
        if (p + 1) * (p + 1) <= n {
            p + 1
        } else {
            p
        }
    }
}

/// `spec_isqrt(n)` is the integer square root of `n`.
pub proof fn lemma_isqrt_bounds(n: nat)
    ensures
        spec_isqrt(n) * spec_isqrt(n) <= n,
        n < (spec_isqrt(n) + 1) * (spec_isqrt(n) + 1),
    decreases n,
{
    if n > 0 {
        lemma_isqrt_bounds((n - 1) as nat);
        let p = spec_isqrt((n - 1) as nat);
        assert(p * p <= n - 1);
        assert(n - 1 < (p + 1) * (p + 1));
        if (p + 1) * (p + 1) <= n {
            assert(spec_isqrt(n) == p + 1);
            assert(n <= (p + 1) * (p + 1));
            assert((p + 1) * (p + 1) < (p + 2) * (p + 2)) by (nonlinear_arith)
                requires p >= 0;
            assert(n < (spec_isqrt(n) + 1) * (spec_isqrt(n) + 1));
        } else {
            assert(spec_isqrt(n) == p);
            assert(n < (spec_isqrt(n) + 1) * (spec_isqrt(n) + 1));
        }
    } else {
        assert(spec_isqrt(n) == 0);
        assert((spec_isqrt(n) + 1) * (spec_isqrt(n) + 1) == 1) by (nonlinear_arith)
            requires spec_isqrt(n) == 0;
    }
}

/// Any `r` with `r * r <= n < (r + 1) * (r + 1)` equals `spec_isqrt(n)`.
pub proof fn lemma_isqrt_unique(n: nat, r: nat)
    requires
        r * r <= n,
        n < (r + 1) * (r + 1),
    ensures
        r == spec_isqrt(n),
{
    lemma_isqrt_bounds(n);
    let s = spec_isqrt(n);
    if r < s {
        assert((r + 1) * (r + 1) <= s * s) by (nonlinear_arith)
            requires r + 1 <= s;
    }
    if s < r {
        assert((s + 1) * (s + 1) <= r * r) by (nonlinear_arith)
            requires s + 1 <= r;
    }
}

/// Integer square root: the largest `r` with `r * r <= n`.
pub fn isqrt(n: u64) -> (r: u64)
    ensures
        r * r <= n,
        n < (r + 1) * (r + 1),
        r == spec_isqrt(n as nat),
{
    let mut lo: u64 = 0;
    let mut hi: u64 = 4294967296;
    proof {
        assert(hi * hi > n) by (nonlinear_arith) requires hi == 4294967296, n <= u64::MAX;
    }
    while lo + 1 < hi
        invariant
            lo < hi <= 4294967296,
            lo * lo <= n,
            n < hi * hi,
        decreases hi - lo,
    {
        let mid: u64 = lo + (hi - lo) / 2;
        proof {
            assert(mid < hi);
            assert(mid * mid <= 4294967295 * 4294967295) by (nonlinear_arith)
                requires 0 <= mid <= 4294967295;
        }
        if mid * mid <= n {
            lo = mid;
        } else {
            hi = mid;
        }
    }
    proof {
        lemma_isqrt_unique(n as nat, lo as nat);
    }
    lo
}

/// Euclidean distance between two in-range points, rounded down to a whole
/// number of pixels.
pub fn calc_dist(a: Point, b: Point) -> (r: u64)
    requires
        a.in_range(),
        b.in_range(),
    ensures
        r == spec_isqrt(spec_dist_sq(a, b) as nat),
        r * r <= spec_dist_sq(a, b),
        spec_dist_sq(a, b) < (r + 1) * (r + 1),
{
    let d2 = dist_sq(a, b);
    isqrt(d2)
}

/// Appends one character to a string.
///
/// Relies on `String::push`: it appends exactly the given character.
#[verifier::external_body]
pub fn push_char(s: &mut String, c: char)
    ensures
        final(s)@ == old(s)@.push(c),
{
    s.push(c);
}

/// `s` with every backslash removed.
pub open spec fn spec_strip_backslashes(s: Seq<char>) -> Seq<char>
    decreases s.len(),
{
    if s.len() == 0 {
        Seq::<char>::empty()
    } else if s[0] == '\\' {
        spec_strip_backslashes(s.drop_first())
    } else {
        seq![s[0]] + spec_strip_backslashes(s.drop_first())
    }
}

/// Appends `s` (from character `i` on) to `out`, leaving backslashes out.
fn strip_into(s: &str, i: usize, out: &mut String)
    requires
        i <= s@.len(),
    ensures
        final(out)@ == old(out)@ + spec_strip_backslashes(s@.skip(i as int)),
    decreases s@.len() - i,
{
    if i < s.unicode_len() {
        let c = s.get_char(i);
        proof {
            assert(s@.skip(i as int)[0] == s@[i as int]);
            assert(s@.skip(i as int).drop_first() =~= s@.skip(i as int + 1));
        }
        if c != '\\' {
            push_char(out, c);
        }
        strip_into(s, i + 1, out);
        proof {
            if c != '\\' {
                assert(out@ =~= old(out)@ + (seq![c] + spec_strip_backslashes(
                    s@.skip(i as int + 1))));
            }
        }
    } else {
        proof {
            assert(s@.skip(i as int) =~= Seq::<char>::empty());
            assert(out@ =~= out@ + Seq::<char>::empty());
        }
    }
}

/// `s` with every backslash removed.
pub fn remove_backslashes(s: &str) -> (r: String)
    ensures
        r@ == spec_strip_backslashes(s@),
{
    let mut out = String::new();
    strip_into(s, 0, &mut out);
    proof {
        assert(s@.skip(0) =~= s@);
        assert(Seq::<char>::empty() + spec_strip_backslashes(s@) =~= spec_strip_backslashes(s@));
    }
    out
}

/// What `serde_json::to_string_pretty` produces for the value that
/// `serde_json::from_str` reads out of `s`; meaningful only when
/// `json_parses(s)` holds.
pub uninterp spec fn json_pretty(s: Seq<char>) -> Seq<char>;

/// Whether `serde_json::from_str` accepts `s` as a JSON document.
pub uninterp spec fn json_parses(s: Seq<char>) -> bool;

/// Re-formats a JSON document with `serde_json`'s pretty printer.
///
/// Relies on `serde_json::from_str` (which accepts exactly the well-formed
/// JSON documents) and `serde_json::to_string_pretty` (whose output on a
/// `serde_json::Value` depends on the value alone).
#[verifier::external_body]
pub fn prettify_json_string(s: &str) -> (r: Option<String>)
    ensures
        r is Some <==> json_parses(s@),
        r is Some ==> r->Some_0@ == json_pretty(s@),
{
    let value: serde_json::Value = serde_json::from_str(s).ok()?;
    serde_json::to_string_pretty(&value).ok()
}

} // verus!
