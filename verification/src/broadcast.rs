//! `broadcast` command + directional sound.
//!
//! A player sends `broadcast <text>` and receives `ok`. Every *other* living
//! player receives `message <K>,<text>\n`, where `K` encodes the direction the
//! sound arrives from, relative to that receiver's own facing.
//!
//! ## Direction K
//!
//! `K = 0` when the sound originates on the receiver's own tile. Otherwise `1`
//! is the square directly in front of the receiver and the remaining squares
//! are numbered **counter-clockwise**:
//!
//! ```text
//!      2  1  8
//!      3  P  7      (P faces up = square 1 is "front")
//!      4  5  6
//! ```
//!
//! so the cardinals relative to facing are: front `1`, left `3`, back `5`,
//! right `7`, and the diagonals fill `2/4/6/8`.
//!
//! Because the world is a torus, the sound takes the **shortest** path: on each
//! axis the offset is reduced to its representative closest to zero (the
//! halfway tie on an even dimension resolves to the positive side). The
//! reduced `(dx, dy)` is then rotated into the receiver's local frame and
//! bucketed into one of the eight sectors by the signs of its forward / right
//! components.

use vstd::prelude::*;

use crate::player::{Orientation, Player, PlayerSet};
use crate::world::{wrap_coord, wrapped, World};

verus! {

/// One `message <K>,<text>` to deliver to a receiving player.
#[derive(Debug, Clone, PartialEq, Eq)]
pub struct SoundMessage {
    pub player_id: u32,
    pub k: u8,
}

/// Shortest signed offset of `to - from` on a wrapped axis of length `n`
/// (`0` when `n == 0`).
pub open spec fn shortest_offset(from: int, to: int, n: int) -> int {
    if n == 0 {
        0
    } else {
        let d = wrapped(to - from, n);
        if d > n / 2 {
            d - n
        } else {
            d
        }
    }
}

/// Shortest signed offset of `to - from` on a wrapped axis of length `n`.
///
/// Result lies in `-(n/2) ..= n/2`; an exact halfway split resolves positive.
pub fn shortest_delta(from: u32, to: u32, n: u32) -> (d: i64)
    ensures
        d == shortest_offset(from as int, to as int, n as int),
{
    if n == 0 {
        return 0;
    }
    let n64 = n as i64;
    let mut d = wrap_coord(to as i64 - from as i64, n64);
    if d > n64 / 2 {
        d = d - n64;
    }
    d
}

/// The shortest offset is congruent to `to - from` and lies in
/// `-(n/2) ..= n/2`, reaching `-(n/2)` only for odd `n`.
pub proof fn law_shortest_offset(from: int, to: int, n: int)
    requires
        n > 0,
    ensures
        (shortest_offset(from, to, n) - (to - from)) % n == 0,
        -(n / 2) <= shortest_offset(from, to, n) <= n / 2,
        n % 2 == 0 ==> shortest_offset(from, to, n) > -(n / 2),
{
    let v = to - from;
    let d = wrapped(v, n);
    vstd::arithmetic::div_mod::lemma_fundamental_div_mod(v, n);
    vstd::arithmetic::div_mod::lemma_mod_bound(v, n);
    let q = v / n;
    assert(d - n - v == (-q - 1) * n) by (nonlinear_arith)
        requires v == n * q + d;
    assert(d - v == (-q) * n) by (nonlinear_arith)
        requires v == n * q + d;
    if d > n / 2 {
        vstd::arithmetic::div_mod::lemma_fundamental_div_mod_converse(d - n - v, n, -q - 1, 0);
    } else {
        vstd::arithmetic::div_mod::lemma_fundamental_div_mod_converse(d - v, n, -q, 0);
    }
}

/// Sign of `v`: `-1`, `0` or `1`.
pub open spec fn sign(v: int) -> int {
    if v > 0 {
        1
    } else if v < 0 {
        -1
    } else {
        0
    }
}

/// A map offset `(dx, dy)` seen by a receiver facing `facing`:
/// `(forward, right)`, positive ahead and to the right.
pub open spec fn local_frame(facing: Orientation, dx: int, dy: int) -> (int, int) {
    match facing {
        Orientation::North => (-dy, dx),
        Orientation::East => (dx, dy),
        Orientation::South => (dy, -dx),
        Orientation::West => (-dx, -dy),
    }
}

/// Sector for a local offset, numbered counter-clockwise from the front.
pub open spec fn sector(forward: int, right: int) -> u8 {
    let f = sign(forward);
    let r = sign(right);
    if f == 1 && r == 0 {
        1
    } else if f == 1 && r == -1 {
        2
    } else if f == 0 && r == -1 {
        3
    } else if f == -1 && r == -1 {
        4
    } else if f == -1 && r == 0 {
        5
    } else if f == -1 && r == 1 {
        6
    } else if f == 0 && r == 1 {
        7
    } else if f == 1 && r == 1 {
        8
    } else {
        0
    }
}

/// Direction `K` of a sound whose shortest offset from the receiver is `(dx, dy)`.
pub open spec fn arrival_k(facing: Orientation, dx: int, dy: int) -> u8 {
    if dx == 0 && dy == 0 {
        0
    } else {
        let l = local_frame(facing, dx, dy);
        sector(l.0, l.1)
    }
}

/// Sector `K` (0..=8) for a sound arriving at a receiver facing `facing` from a
/// source whose shortest toroidal offset is `(dx, dy)` in map coordinates
/// (`+x` east, `+y` south). `(0, 0)` → same tile → `0`.
pub fn direction_k(facing: Orientation, dx: i64, dy: i64) -> (k: u8)
    requires
        dx > i64::MIN,
        dy > i64::MIN,
    ensures
        k == arrival_k(facing, dx as int, dy as int),
{
    if dx == 0 && dy == 0 {
        return 0;
    }
    // Rotate the map-space offset into the receiver's local frame:
    // `forward` > 0 means the source is ahead, `right` > 0 means to the right.
    let (forward, right) = match facing {
        Orientation::North => (-dy, dx),
        Orientation::East => (dx, dy),
        Orientation::South => (dy, -dx),
        Orientation::West => (-dx, -dy),
    };
    let f = signum(forward);
    let r = signum(right);
    // Numbering is counter-clockwise from the front, so "left" (right < 0)
    // takes the low sectors (2, 3, 4) and "right" (right > 0) the high (6, 7, 8).
    if f == 1 && r == 0 {
        1
    } else if f == 1 && r == -1 {
        2
    } else if f == 0 && r == -1 {
        3
    } else if f == -1 && r == -1 {
        4
    } else if f == -1 && r == 0 {
        5
    } else if f == -1 && r == 1 {
        6
    } else if f == 0 && r == 1 {
        7
    } else {
        8
    }
}

fn signum(v: i64) -> (s: i64)
    ensures
        s == sign(v as int),
{
    if v > 0 {
        1
    } else if v < 0 {
        -1
    } else {
        0
    }
}

/// `K` is `0` exactly for the receiver's own tile and lies in `1..=8`
/// otherwise; the square straight ahead is always `1`, to the left `3`,
/// behind `5` and to the right `7`; turning the receiver and the offset by a
/// quarter turn together leaves `K` unchanged.
pub proof fn law_arrival_k(facing: Orientation, dx: int, dy: int, n: int)
    requires
        n > 0,
    ensures
        (arrival_k(facing, dx, dy) == 0) == (dx == 0 && dy == 0),
        arrival_k(facing, dx, dy) <= 8,
        arrival_k(facing, facing.delta().0 * n, facing.delta().1 * n) == 1,
        arrival_k(Orientation::from_quarter(facing.quarter() + 1), -dy, dx) == arrival_k(facing, dx, dy),
        ({
            let left = Orientation::from_quarter(facing.quarter() + 3).delta();
            arrival_k(facing, left.0 * n, left.1 * n) == 3
        }),
        ({
            let back = Orientation::from_quarter(facing.quarter() + 2).delta();
            arrival_k(facing, back.0 * n, back.1 * n) == 5
        }),
        ({
            let right = Orientation::from_quarter(facing.quarter() + 1).delta();
            arrival_k(facing, right.0 * n, right.1 * n) == 7
        }),
{
    match facing {
        Orientation::North => {
            assert(0 * n == 0);
            assert(-1 * n == -n);
            assert(1 * n == n);
        },
        Orientation::East => {
            assert(0 * n == 0);
            assert(-1 * n == -n);
            assert(1 * n == n);
        },
        Orientation::South => {
            assert(0 * n == 0);
            assert(-1 * n == -n);
            assert(1 * n == n);
        },
        Orientation::West => {
            assert(0 * n == 0);
            assert(-1 * n == -n);
            assert(1 * n == n);
        },
    }
}

/// The deliveries for a broadcast from `(sx, sy)` by `source`, one per other
/// player of `s`, in order.
pub open spec fn deliveries(s: Seq<Player>, source: u32, sx: u32, sy: u32, w: u32, h: u32) -> Seq<SoundMessage>
    decreases s.len(),
{
    if s.len() == 0 {
        Seq::empty()
    } else {
        let rest = deliveries(s.drop_last(), source, sx, sy, w, h);
        let p = s.last();
        if p.id != source {
            rest.push(
                SoundMessage {
                    player_id: p.id,
                    k: arrival_k(
                        p.orient,
                        shortest_offset(p.x as int, sx as int, w as int),
                        shortest_offset(p.y as int, sy as int, h as int),
                    ),
                },
            )
        } else {
            rest
        }
    }
}

/// Build the `message <K>,...` deliveries for `broadcast` sent by `source_id`.
///
/// The broadcaster is excluded (players never hear their own broadcast).
/// Deliveries follow the players' order of arrival.
pub fn apply_broadcast(source_id: u32, players: &PlayerSet, world: &World) -> (msgs: Vec<SoundMessage>)
    requires
        world.wf(),
        players.filed(),
    ensures
        msgs@ == (match players.lookup(source_id) {
            Some(src) => deliveries(players.members(), source_id, src.x, src.y, world.w() as u32, world.h() as u32),
            None => Seq::empty(),
        }),
{
    let source = match players.get(source_id) {
        Some(p) => p,
        None => {
            return Vec::new();
        },
    };
    let sx = source.x;
    let sy = source.y;
    let width = world.width();
    let height = world.height();
    proof {
        world.lemma_dims();
    }
    let ps = players.iter();
    let mut out: Vec<SoundMessage> = Vec::new();
    let mut i: usize = 0;
    while i < ps.len()
        invariant
            i <= ps@.len(),
            width == world.w(),
            height == world.h(),
            width > 0,
            height > 0,
            out@ == deliveries(ps@.subrange(0, i as int), source_id, sx, sy, width, height),
        decreases ps@.len() - i,
    {
        assert(ps@.subrange(0, i + 1).drop_last() =~= ps@.subrange(0, i as int));
        let p = &ps[i];
        if p.id != source_id {
            let dx = shortest_delta(p.x, sx, width);
            let dy = shortest_delta(p.y, sy, height);
            proof {
                law_shortest_offset(p.x as int, sx as int, width as int);
                law_shortest_offset(p.y as int, sy as int, height as int);
            }
            out.push(SoundMessage { player_id: p.id, k: direction_k(p.orient, dx, dy) });
        }
        i = i + 1;
    }
    assert(ps@.subrange(0, i as int) =~= ps@);
    out
}

} // verus!
