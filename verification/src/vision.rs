//! Player vision / `see` formatting.
//!
//! Level `L` sees a forward triangle matching the subject diagrams: tile `0` is
//! the player's own square, then for each depth `d = 1..=L` a row of `2*d+1`
//! tiles listed left-to-right. Total tiles = `(L+1)^2`.
//!
//! The looking player is omitted from their own square. Other objects on a tile
//! are space-separated; empty tiles appear as an empty field between commas.

use vstd::prelude::*;

use crate::player::{Orientation, Player, PlayerSet};
use crate::text::{empty_string, joined, lemma_joined_push, push_part, push_str, to_owned_string};
use crate::world::{wrapped, StoneKind, Tile, World};

verus! {

/// Number of tiles in a `see` response at `level`.
pub open spec fn tile_count_at(level: nat) -> nat {
    (level + 1) * (level + 1)
}

/// Number of tiles in a `see` response at `level` (subject: level 1→4, 2→9, 3→16).
pub fn vision_tile_count(level: u8) -> (n: usize)
    ensures
        n == tile_count_at(level as nat),
{
    let l = level as usize;
    assert((l + 1) * (l + 1) <= 256 * 256) by (nonlinear_arith)
        requires l <= 255;
    (l + 1) * (l + 1)
}

/// Square seen at depth `d` and lateral offset `lat` (negative = left) by a
/// player at `(x, y)` facing `o` on a `w` x `h` torus.
pub open spec fn seen_square(x: int, y: int, o: Orientation, w: int, h: int, d: int, lat: int) -> (u32, u32) {
    let f = o.delta();
    let r = Orientation::from_quarter(o.quarter() + 1).delta();
    (wrapped(x + f.0 * d + r.0 * lat, w) as u32, wrapped(y + f.1 * d + r.1 * lat, h) as u32)
}

/// The row of `2d+1` squares at depth `d`, left to right.
pub open spec fn vision_row(x: int, y: int, o: Orientation, w: int, h: int, d: int) -> Seq<(u32, u32)> {
    Seq::new((2 * d + 1) as nat, |j: int| seen_square(x, y, o, w, h, d, j - d))
}

/// Squares seen up to depth `level`, in `see` order.
pub open spec fn vision_squares(x: int, y: int, o: Orientation, w: int, h: int, level: nat) -> Seq<(u32, u32)>
    decreases level,
{
    if level == 0 {
        seq![(x as u32, y as u32)]
    } else {
        vision_squares(x, y, o, w, h, (level - 1) as nat) + vision_row(x, y, o, w, h, level as int)
    }
}

/// A `see` at level `L` lists `(L+1)^2` squares, and the squares seen at a
/// lower level come first, in the same order.
pub proof fn law_vision_grows_by_rows(x: int, y: int, o: Orientation, w: int, h: int, level: nat, lower: nat)
    requires
        lower <= level,
    ensures
        vision_squares(x, y, o, w, h, level).len() == tile_count_at(level),
        vision_squares(x, y, o, w, h, lower) == vision_squares(x, y, o, w, h, level).take(
            tile_count_at(lower) as int,
        ),
    decreases level,
{
    if level > 0 {
        law_vision_grows_by_rows(x, y, o, w, h, (level - 1) as nat, if lower == level {
            (level - 1) as nat
        } else {
            lower
        });
        assert((level + 1) * (level + 1) == level * level + 2 * level + 1) by (nonlinear_arith);
        assert((lower + 1) * (lower + 1) <= (level as int) * (level as int) || lower == level) by (nonlinear_arith)
            requires lower <= level;
        let prev = vision_squares(x, y, o, w, h, (level - 1) as nat);
        let all = vision_squares(x, y, o, w, h, level);
        assert(all.take(prev.len() as int) =~= prev);
        if lower < level {
            assert(all.take(tile_count_at(lower) as int) =~= prev.take(tile_count_at(lower) as int));
        } else {
            assert(all.take(all.len() as int) =~= all);
        }
    } else {
        assert(vision_squares(x, y, o, w, h, level).take(1) =~= vision_squares(x, y, o, w, h, level));
    }
}

/// Every square seen lies on the map.
pub proof fn lemma_vision_on_map(x: int, y: int, o: Orientation, w: int, h: int, level: nat)
    requires
        0 <= x < w,
        0 <= y < h,
        w <= u32::MAX,
        h <= u32::MAX,
    ensures
        forall|k: int|
            0 <= k < vision_squares(x, y, o, w, h, level).len() ==> (#[trigger] vision_squares(x, y, o, w, h, level)[k]).0 < w
                && vision_squares(x, y, o, w, h, level)[k].1 < h,
    decreases level,
{
    if level > 0 {
        lemma_vision_on_map(x, y, o, w, h, (level - 1) as nat);
        let prev = vision_squares(x, y, o, w, h, (level - 1) as nat);
        let row = vision_row(x, y, o, w, h, level as int);
        assert forall|k: int| 0 <= k < vision_squares(x, y, o, w, h, level).len() implies (#[trigger] vision_squares(x, y, o, w, h, level)[k]).0 < w
                && vision_squares(x, y, o, w, h, level)[k].1 < h by {
            if k >= prev.len() {
                let j = k - prev.len();
                let f = o.delta();
                let r = Orientation::from_quarter(o.quarter() + 1).delta();
                let d = level as int;
                assert(vision_squares(x, y, o, w, h, level)[k] == row[j]);
                assert(0 <= wrapped(x + f.0 * d + r.0 * (j - d), w) < w);
                assert(0 <= wrapped(y + f.1 * d + r.1 * (j - d), h) < h);
            } else {
                assert(vision_squares(x, y, o, w, h, level)[k] == prev[k]);
            }
        }
    }
}

/// Absolute map coordinates for each vision slot, in `see` order.
pub fn vision_coords(level: u8, x: u32, y: u32, orient: Orientation, world: &World) -> (out: Vec<(u32, u32)>)
    requires
        world.wf(),
    ensures
        out@ == vision_squares(x as int, y as int, orient, world.w() as int, world.h() as int, level as nat),
{
    let ghost w = world.w() as int;
    let ghost h = world.h() as int;
    let mut out: Vec<(u32, u32)> = Vec::new();
    // Slot 0: current tile.
    out.push((x, y));
    let (fx, fy) = orient.step_delta();
    let (rx, ry) = orient.turn_right().step_delta();
    let mut depth: u16 = 1;
    while depth <= level as u16
        invariant
            -1 <= fx <= 1,
            -1 <= fy <= 1,
            -1 <= rx <= 1,
            -1 <= ry <= 1,
            1 <= depth,
            depth as int <= level as int + 1,
            world.wf(),
            fx == orient.delta().0,
            fy == orient.delta().1,
            rx == Orientation::from_quarter(orient.quarter() + 1).delta().0,
            ry == Orientation::from_quarter(orient.quarter() + 1).delta().1,
            out@ == vision_squares(x as int, y as int, orient, w, h, (depth - 1) as nat),
            w == world.w(),
            h == world.h(),
        decreases level as int + 1 - depth,
    {
        let d: i64 = depth as i64;
        let ghost base = out@;
        let mut lateral: i64 = -d;
        while lateral <= d
            invariant
                -d <= lateral <= d + 1,
                1 <= d <= 255,
                -1 <= fx <= 1,
                -1 <= fy <= 1,
                -1 <= rx <= 1,
                -1 <= ry <= 1,
                d == depth,
                world.wf(),
                w == world.w(),
                h == world.h(),
                fx == orient.delta().0,
                fy == orient.delta().1,
                rx == Orientation::from_quarter(orient.quarter() + 1).delta().0,
                ry == Orientation::from_quarter(orient.quarter() + 1).delta().1,
                out@ == base + vision_row(x as int, y as int, orient, w, h, d as int).take(lateral + d),
            decreases d + 1 - lateral,
        {
            let wx = x as i64 + fx * d + rx * lateral;
            let wy = y as i64 + fy * d + ry * lateral;
            out.push((world.wrap_x(wx), world.wrap_y(wy)));
            lateral = lateral + 1;
            proof {
                let row = vision_row(x as int, y as int, orient, w, h, d as int);
                assert(row[lateral - 1 + d] == seen_square(x as int, y as int, orient, w, h, d as int, lateral - 1));
                assert(out@ =~= base + row.take(lateral + d));
            }
        }
        proof {
            let row = vision_row(x as int, y as int, orient, w, h, d as int);
            assert(row.take(2 * d + 1) =~= row);
        }
        depth = depth + 1;
    }
    out
}

/// Number of players of `s` on square `(tx, ty)` other than `viewer`.
pub open spec fn others_on(s: Seq<Player>, tx: u32, ty: u32, viewer: u32) -> nat
    decreases s.len(),
{
    if s.len() == 0 {
        0
    } else {
        others_on(s.drop_last(), tx, ty, viewer) + if s.last().id != viewer && s.last().x == tx
            && s.last().y == ty {
            1nat
        } else {
            0nat
        }
    }
}

/// Names of the stone kinds at positions `0..k` present on `t`.
pub open spec fn stone_words(t: Tile, k: nat) -> Seq<Seq<char>>
    decreases k,
{
    if k == 0 {
        Seq::empty()
    } else {
        let kind = StoneKind::at(k - 1);
        stone_words(t, (k - 1) as nat) + if t.holds(kind) {
            seq![kind.name()]
        } else {
            Seq::empty()
        }
    }
}

/// Objects listed for a square: other players, then food, then stones.
pub open spec fn tile_words(others: nat, t: Tile) -> Seq<Seq<char>> {
    Seq::new(others, |i: int| "player"@) + (if t.has_food() {
        seq!["food"@]
    } else {
        Seq::empty()
    }) + stone_words(t, 6)
}

/// The `see` field for square `(tx, ty)` as seen by `viewer`.
pub open spec fn tile_text(world: World, players: Seq<Player>, tx: u32, ty: u32, viewer: u32) -> Seq<char> {
    joined(tile_words(others_on(players, tx, ty, viewer), world.tile_at(tx as int, ty as int)), " "@)
}

/// Format one tile's visible contents (excluding `viewer_id` if on that tile).
pub fn format_tile_contents(tx: u32, ty: u32, viewer_id: u32, world: &World, players: &PlayerSet) -> (s: String)
    requires
        world.wf(),
        tx < world.w(),
        ty < world.h(),
    ensures
        s@ == tile_text(*world, players.members(), tx, ty, viewer_id),
{
    let ps = players.iter();
    let mut others: usize = 0;
    let mut i: usize = 0;
    while i < ps.len()
        invariant
            i <= ps@.len(),
            ps@ == players.members(),
            others == others_on(ps@.subrange(0, i as int), tx, ty, viewer_id),
            others <= i,
        decreases ps@.len() - i,
    {
        assert(ps@.subrange(0, i + 1).drop_last() =~= ps@.subrange(0, i as int));
        let p = &ps[i];
        if p.id != viewer_id && p.x == tx && p.y == ty {
            others = others + 1;
        }
        i = i + 1;
    }
    assert(ps@.subrange(0, i as int) =~= ps@);
    let tile = world.tile(tx, ty);
    let ghost t = *tile;
    let mut s = empty_string();
    let ghost mut parts: Seq<Seq<char>> = Seq::empty();
    let mut k: usize = 0;
    while k < others
        invariant
            k <= others,
            parts == Seq::new(k as nat, |j: int| "player"@),
            s@ == joined(parts, " "@),
        decreases others - k,
    {
        push_part(&mut s, k > 0, " ", "player");
        proof {
            lemma_joined_push(parts, " "@, "player"@);
            parts = parts.push("player"@);
            assert(parts =~= Seq::new((k + 1) as nat, |j: int| "player"@));
        }
        k = k + 1;
    }
    if tile.food() {
        push_part(&mut s, others > 0, " ", "food");
        proof {
            lemma_joined_push(parts, " "@, "food"@);
            parts = parts.push("food"@);
        }
    }
    let ghost head = parts;
    let mut any = others > 0 || tile.food();
    let mut j: usize = 0;
    while j < 6
        invariant
            j <= 6,
            parts == head + stone_words(t, j as nat),
            s@ == joined(parts, " "@),
            head.len() == others + (if t.has_food() { 1int } else { 0int }),
            *tile == t,
            any == (parts.len() > 0),
        decreases 6 - j,
    {
        let kind = StoneKind::from_index(j).unwrap();
        if tile.has_stone(kind) {
            push_part(&mut s, any, " ", kind.as_str());
            any = true;
            proof {
                lemma_joined_push(parts, " "@, kind.name());
                parts = parts.push(kind.name());
                assert(parts =~= head + stone_words(t, (j + 1) as nat));
            }
        } else {
            proof {
                assert(parts =~= head + stone_words(t, (j + 1) as nat));
            }
        }
        j = j + 1;
    }
    proof {
        assert(parts =~= tile_words(others as nat, t));
    }
    s
}

/// Squares a player sees, for its level (at least 1).
pub open spec fn seen_by(viewer: Player, world: World) -> Seq<(u32, u32)> {
    let level = if viewer.level < 1 {
        1nat
    } else {
        viewer.level as nat
    };
    vision_squares(viewer.x as int, viewer.y as int, viewer.orient, world.w() as int, world.h() as int, level)
}

/// Fields of the `see` reply for the squares `sq`.
pub open spec fn see_fields(world: World, players: Seq<Player>, sq: Seq<(u32, u32)>, viewer: u32) -> Seq<Seq<char>> {
    Seq::new(sq.len(), |i: int| tile_text(world, players, sq[i].0, sq[i].1, viewer))
}

/// The full `see` reply of `viewer`.
pub open spec fn see_text(viewer: Player, world: World, players: Seq<Player>) -> Seq<char> {
    "{"@ + joined(see_fields(world, players, seen_by(viewer, world), viewer.id), ", "@) + "}\n"@
}

/// Full `see` response line including braces and trailing newline.
pub fn see_reply(viewer: &Player, world: &World, players: &PlayerSet) -> (s: String)
    requires
        world.wf(),
        viewer.x < world.w(),
        viewer.y < world.h(),
    ensures
        s@ == see_text(*viewer, *world, players.members()),
{
    let level = if viewer.level < 1 {
        1
    } else {
        viewer.level
    };
    let coords = vision_coords(level, viewer.x, viewer.y, viewer.orient, world);
    let ghost sq = coords@;
    proof {
        world.lemma_dims();
        lemma_vision_on_map(viewer.x as int, viewer.y as int, viewer.orient, world.w() as int, world.h() as int, level as nat);
    }
    let mut body = to_owned_string("{");
    let ghost mut parts: Seq<Seq<char>> = Seq::empty();
    let mut i: usize = 0;
    while i < coords.len()
        invariant
            i <= coords@.len(),
            world.wf(),
            sq == coords@,
            forall|k: int| 0 <= k < sq.len() ==> (#[trigger] sq[k]).0 < world.w() && sq[k].1 < world.h(),
            parts == see_fields(*world, players.members(), sq, viewer.id).take(i as int),
            body@ == "{"@ + joined(parts, ", "@),
        decreases coords@.len() - i,
    {
        let (tx, ty) = coords[i];
        let field = format_tile_contents(tx, ty, viewer.id, world, players);
        let ghost before = body@;
        push_part(&mut body, i > 0, ", ", field.as_str());
        proof {
            lemma_joined_push(parts, ", "@, field@);
            parts = parts.push(field@);
            assert(parts =~= see_fields(*world, players.members(), sq, viewer.id).take(i + 1));
            assert(body@ =~= "{"@ + joined(parts, ", "@));
        }
        i = i + 1;
    }
    push_str(&mut body, "}\n");
    proof {
        assert(parts =~= see_fields(*world, players.members(), sq, viewer.id));
    }
    body
}

} // verus!
