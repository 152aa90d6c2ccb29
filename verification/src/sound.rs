//! `broadcast` sound direction, as sectors around the receiver.
//!
//! Sender gets `ok`. Every other live player receives `message <K>,<text>\n`
//! where K is the shortest-path arrival sector relative to the receiver's
//! facing:
//!
//! ```text
//! 8 1 2
//! 7 0 3
//! 6 5 4
//! ```
//!
//! (1 = front, then clockwise on the map with north-up — matches kick
//! cardinals 1/3/5/7). Same tile → `K = 0`. A sector covers the directions
//! within about 22.5° of its axis (`tan 22.5° ≈ 0.414`).

use vstd::prelude::*;

use crate::player::{Orientation, Player, PlayerSet};
use crate::text::{decimal, push_decimal, push_str, to_owned_string};
use crate::world::World;

verus! {

/// The `message K,text` line delivered to one listener.
pub open spec fn message_text(k: u8, text: Seq<char>) -> Seq<char> {
    "message "@ + decimal(k as nat) + ","@ + text + "\n"@
}

/// Format the protocol line delivered to one listener.
pub fn message_line(k: u8, text: &str) -> (s: String)
    ensures
        s@ == message_text(k, text@),
{
    let mut s = to_owned_string("message ");
    push_decimal(&mut s, k as u64);
    push_str(&mut s, ",");
    push_str(&mut s, text);
    push_str(&mut s, "\n");
    s
}

/// Signed axis offset from `from` to `to` on a torus of `size`, folded toward
/// the short side; a half-map tie on an even size goes negative.
pub open spec fn axis_offset(from: int, to: int, size: int) -> int {
    let d0 = to - from;
    let d1 = if d0 > size / 2 {
        d0 - size
    } else if d0 < -(size / 2) {
        d0 + size
    } else {
        d0
    };
    if size % 2 == 0 && d1 == size / 2 {
        d1 - size
    } else {
        d1
    }
}

/// Signed shortest-axis delta from `from` to `to` on a torus of `size`.
///
/// Positive means `to` is greater than `from` along the axis before wrapping.
/// When both directions are equal length (even `size`, half-map apart), the
/// negative direction is preferred for determinism.
pub fn toroidal_delta(from: u32, to: u32, size: u32) -> (d: i32)
    requires
        0 < size <= i32::MAX,
        from <= i32::MAX,
        to <= i32::MAX,
    ensures
        d == axis_offset(from as int, to as int, size as int),
{
    let size = size as i32;
    let mut d = to as i32 - from as i32;
    if d > size / 2 {
        d = d - size;
    } else if d < -(size / 2) {
        d = d + size;
    }
    if size % 2 == 0 && d == size / 2 {
        d = d - size;
    }
    d
}

/// For coordinates on the map, the offset is congruent to `to - from` and lies
/// in `-(size/2) ..= (size-1)/2`.
pub proof fn law_axis_offset(from: int, to: int, size: int)
    requires
        size > 0,
        0 <= from < size,
        0 <= to < size,
    ensures
        axis_offset(from, to, size) == to - from || axis_offset(from, to, size) == to - from - size
            || axis_offset(from, to, size) == to - from + size,
        -(size / 2) <= axis_offset(from, to, size) <= (size - 1) / 2,
{
}

/// A map offset rotated so the receiver's facing becomes local north (`-y`);
/// local `+x` is the receiver's right.
pub open spec fn rotated(dx: int, dy: int, o: Orientation) -> (int, int) {
    match o {
        Orientation::North => (dx, dy),
        Orientation::East => (dy, -dx),
        Orientation::South => (-dx, -dy),
        Orientation::West => (-dy, dx),
    }
}

/// Rotate world delta so receiver facing becomes local north (`-y`).
/// Local `+x` is the receiver's right.
fn to_local(dx: i32, dy: i32, orient: Orientation) -> (l: (i32, i32))
    requires
        dx > i32::MIN,
        dy > i32::MIN,
    ensures
        l.0 == rotated(dx as int, dy as int, orient).0,
        l.1 == rotated(dx as int, dy as int, orient).1,
{
    match orient {
        Orientation::North => (dx, dy),
        Orientation::East => (dy, -dx),
        Orientation::South => (-dx, -dy),
        Orientation::West => (-dy, dx),
    }
}

/// `a * m`, saturating at `u32::MAX`.
pub open spec fn sat_mul(a: int, m: int) -> int {
    if a * m > u32::MAX {
        u32::MAX as int
    } else {
        a * m
    }
}

/// `|v|`.
pub open spec fn abs(v: int) -> int {
    if v < 0 {
        -v
    } else {
        v
    }
}

/// Sector 0..=8 for a local vector (right = +x, down = +y, front = −y).
pub open spec fn local_sector(dx: int, dy: int) -> u8 {
    if dx == 0 && dy == 0 {
        0
    } else {
        let ax = abs(dx);
        let ay = abs(dy);
        let near_vertical = sat_mul(ax, 1000) < sat_mul(ay, 414);
        let near_horizontal = sat_mul(ay, 1000) < sat_mul(ax, 414);
        if near_vertical {
            if dy < 0 {
                1
            } else {
                5
            }
        } else if near_horizontal {
            if dx > 0 {
                3
            } else {
                7
            }
        } else if dx > 0 && dy < 0 {
            2
        } else if dx > 0 {
            4
        } else if dy < 0 {
            8
        } else {
            6
        }
    }
}

fn saturating_times(a: u32, m: u32) -> (r: u32)
    ensures
        r == sat_mul(a as int, m as int),
{
    assert((a as u64) * (m as u64) <= 0xFFFF_FFFFu64 * 0xFFFF_FFFFu64) by (nonlinear_arith)
        requires a <= 0xFFFF_FFFFu32, m <= 0xFFFF_FFFFu32;
    let p: u64 = a as u64 * m as u64;
    if p > u32::MAX as u64 {
        u32::MAX
    } else {
        p as u32
    }
}

fn unsigned_abs(v: i32) -> (r: u32)
    ensures
        r == abs(v as int),
{
    if v < 0 {
        (-(v as i64)) as u32
    } else {
        v as u32
    }
}

/// Map local vector (right = +x, down = +y, front = −y) to sector 1..=8.
fn local_to_sector(dx: i32, dy: i32) -> (k: u8)
    ensures
        k == local_sector(dx as int, dy as int),
{
    if dx == 0 && dy == 0 {
        return 0;
    }
    let ax = unsigned_abs(dx);
    let ay = unsigned_abs(dy);
    // Half-sector boundary: tan(22.5°) ≈ 0.414 → keep pure axis within ~22.5°.
    let near_vertical = saturating_times(ax, 1000) < saturating_times(ay, 414);
    let near_horizontal = saturating_times(ay, 1000) < saturating_times(ax, 414);
    if near_vertical {
        if dy < 0 {
            1
        } else {
            5
        }
    } else if near_horizontal {
        if dx > 0 {
            3
        } else {
            7
        }
    } else if dx > 0 && dy < 0 {
        2
    } else if dx > 0 {
        4
    } else if dy < 0 {
        8
    } else {
        6
    }
}

/// Sector of a sound from `(sx, sy)` heard by a receiver at `(rx, ry)`
/// facing `o` on a `w` x `h` torus.
pub open spec fn heard_k(rx: u32, ry: u32, o: Orientation, sx: u32, sy: u32, w: u32, h: u32) -> u8 {
    let dx = axis_offset(rx as int, sx as int, w as int);
    let dy = axis_offset(ry as int, sy as int, h as int);
    if dx == 0 && dy == 0 {
        0
    } else {
        let l = rotated(dx, dy, o);
        local_sector(l.0, l.1)
    }
}

/// Map sizes and coordinates this module's arithmetic handles.
pub open spec fn fits_i32(world: World) -> bool {
    world.w() <= i32::MAX && world.h() <= i32::MAX
}

/// Sound sector K for a broadcast from `(sx,sy)` heard by `receiver`.
pub fn sound_k(receiver: &Player, sx: u32, sy: u32, world: &World) -> (k: u8)
    requires
        world.wf(),
        fits_i32(*world),
        receiver.x < world.w(),
        receiver.y < world.h(),
        sx < world.w(),
        sy < world.h(),
    ensures
        k == heard_k(receiver.x, receiver.y, receiver.orient, sx, sy, world.w() as u32, world.h() as u32),
{
    proof {
        world.lemma_dims();
    }
    let dx = toroidal_delta(receiver.x, sx, world.width());
    let dy = toroidal_delta(receiver.y, sy, world.height());
    if dx == 0 && dy == 0 {
        return 0;
    }
    let (ldx, ldy) = to_local(dx, dy, receiver.orient);
    local_to_sector(ldx, ldy)
}

/// The sectors `1, 3, 5, 7` point straight ahead, right, behind and left:
/// a sound from the square ahead of a receiver is heard as `1` whatever the
/// facing, and from its own square as `0`.
pub proof fn law_heard_front_is_one(rx: u32, ry: u32, o: Orientation, w: u32, h: u32)
    requires
        3 <= w <= i32::MAX,
        3 <= h <= i32::MAX,
        1 <= rx < w - 1,
        1 <= ry < h - 1,
    ensures
        heard_k(rx, ry, o, rx, ry, w, h) == 0,
        heard_k(rx, ry, o, (rx + o.delta().0) as u32, (ry + o.delta().1) as u32, w, h) == 1,
{
}

/// The coordinate `d` squares on from `v` along an axis of length `n`
/// (`|d| < n`), wrapping around the torus.
pub open spec fn step_on(v: u32, d: int, n: u32) -> u32 {
    if v + d < 0 {
        (v + d + n) as u32
    } else if v + d >= n {
        (v + d - n) as u32
    } else {
        (v + d) as u32
    }
}

/// The sector heard from the square `(dx, dy)` away from a receiver at
/// `(rx, ry)` facing `o`.
pub open spec fn heard_from(rx: u32, ry: u32, o: Orientation, dx: int, dy: int, w: u32, h: u32) -> u8 {
    heard_k(rx, ry, o, step_on(rx, dx, w), step_on(ry, dy, h), w, h)
}

/// Stepping `d` squares along an axis and measuring the shortest offset back
/// gives `d` again, for `d` strictly within half the axis.
proof fn lemma_offset_of_step(v: u32, d: int, n: u32)
    requires
        0 < n,
        v < n,
        -((n as int - 1) / 2) <= d <= (n as int - 1) / 2,
    ensures
        axis_offset(v as int, step_on(v, d, n) as int, n as int) == d,
        step_on(v, d, n) < n,
{
}

/// Around a receiver, whatever its facing, the square ahead is heard as 1,
/// then clockwise: ahead-right 2, right 3, behind-right 4, behind 5,
/// behind-left 6, left 7, ahead-left 8; the receiver's own square is 0.
/// (Map `+x` is east and `+y` south; facing north, ahead is `-y` and the right
/// hand is `+x`.)
pub proof fn law_heard_neighbours(rx: u32, ry: u32, o: Orientation, w: u32, h: u32)
    requires
        3 <= w <= i32::MAX,
        3 <= h <= i32::MAX,
        rx < w,
        ry < h,
    ensures
        ({
            let ahead: (int, int) = match o {
                Orientation::North => (0, -1),
                Orientation::East => (1, 0),
                Orientation::South => (0, 1),
                Orientation::West => (-1, 0),
            };
            let right: (int, int) = match o {
                Orientation::North => (1, 0),
                Orientation::East => (0, 1),
                Orientation::South => (-1, 0),
                Orientation::West => (0, -1),
            };
            &&& heard_from(rx, ry, o, 0, 0, w, h) == 0
            &&& heard_from(rx, ry, o, ahead.0, ahead.1, w, h) == 1
            &&& heard_from(rx, ry, o, ahead.0 + right.0, ahead.1 + right.1, w, h) == 2
            &&& heard_from(rx, ry, o, right.0, right.1, w, h) == 3
            &&& heard_from(rx, ry, o, right.0 - ahead.0, right.1 - ahead.1, w, h) == 4
            &&& heard_from(rx, ry, o, -ahead.0, -ahead.1, w, h) == 5
            &&& heard_from(rx, ry, o, -ahead.0 - right.0, -ahead.1 - right.1, w, h) == 6
            &&& heard_from(rx, ry, o, -right.0, -right.1, w, h) == 7
            &&& heard_from(rx, ry, o, ahead.0 - right.0, ahead.1 - right.1, w, h) == 8
        }),
{
    lemma_offset_of_step(rx, 0, w);
    lemma_offset_of_step(rx, 1, w);
    lemma_offset_of_step(rx, -1, w);
    lemma_offset_of_step(ry, 0, h);
    lemma_offset_of_step(ry, 1, h);
    lemma_offset_of_step(ry, -1, h);
}

/// Turning the receiver a quarter turn clockwise and moving the sound's
/// source a quarter turn clockwise around it leaves the sector unchanged, on
/// a square map for sources less than half the map away on each axis.
pub proof fn law_heard_turns_with_receiver(rx: u32, ry: u32, o: Orientation, dx: int, dy: int, n: u32)
    requires
        0 < n <= i32::MAX,
        rx < n,
        ry < n,
        -((n as int - 1) / 2) <= dx <= (n as int - 1) / 2,
        -((n as int - 1) / 2) <= dy <= (n as int - 1) / 2,
    ensures
        heard_from(rx, ry, Orientation::from_quarter(o.quarter() + 1), -dy, dx, n, n) == heard_from(
            rx,
            ry,
            o,
            dx,
            dy,
            n,
            n,
        ),
{
    lemma_offset_of_step(rx, dx, n);
    lemma_offset_of_step(ry, dy, n);
    lemma_offset_of_step(rx, -dy, n);
    lemma_offset_of_step(ry, dx, n);
}

/// `(player_id, K)` for each other player of `s`, in order.
pub open spec fn targets(s: Seq<Player>, sender: u32, sx: u32, sy: u32, w: u32, h: u32) -> Seq<(u32, u8)>
    decreases s.len(),
{
    if s.len() == 0 {
        Seq::empty()
    } else {
        let rest = targets(s.drop_last(), sender, sx, sy, w, h);
        let p = s.last();
        if p.id != sender {
            rest.push((p.id, heard_k(p.x, p.y, p.orient, sx, sy, w, h)))
        } else {
            rest
        }
    }
}

/// Every player stands on the map.
pub open spec fn all_on_map(s: Seq<Player>, world: World) -> bool {
    forall|i: int| 0 <= i < s.len() ==> (#[trigger] s[i]).x < world.w() && s[i].y < world.h()
}

/// Collect `(player_id, K)` for every listener of a broadcast from `sender_id`.
pub fn broadcast_targets(sender_id: u32, players: &PlayerSet, world: &World) -> (t: Vec<(u32, u8)>)
    requires
        world.wf(),
        fits_i32(*world),
        all_on_map(players.members(), *world),
        players.filed(),
    ensures
        t@ == (match players.lookup(sender_id) {
            Some(src) => targets(players.members(), sender_id, src.x, src.y, world.w() as u32, world.h() as u32),
            None => Seq::empty(),
        }),
{
    let sender = match players.get(sender_id) {
        Some(p) => p,
        None => {
            return Vec::new();
        },
    };
    proof {
        crate::player::lemma_first_with_id(players.members(), sender_id);
        assert(players.members()[players.slot(sender_id)] == *sender);
    }
    let sx = sender.x;
    let sy = sender.y;
    let ps = players.iter();
    let mut out: Vec<(u32, u8)> = Vec::new();
    let mut i: usize = 0;
    while i < ps.len()
        invariant
            i <= ps@.len(),
            ps@ == players.members(),
            world.wf(),
            fits_i32(*world),
            all_on_map(ps@, *world),
            sx < world.w(),
            sy < world.h(),
            out@ == targets(ps@.subrange(0, i as int), sender_id, sx, sy, world.w() as u32, world.h() as u32),
        decreases ps@.len() - i,
    {
        assert(ps@.subrange(0, i + 1).drop_last() =~= ps@.subrange(0, i as int));
        let p = &ps[i];
        if p.id != sender_id {
            out.push((p.id, sound_k(p, sx, sy, world)));
        }
        i = i + 1;
    }
    assert(ps@.subrange(0, i as int) =~= ps@);
    out
}

} // verus!
