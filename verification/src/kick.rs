//! `kick` command.
//!
//! Pushes every other player on the kicker's tile one step in the kicker's
//! facing direction. Food and stones stay put. Blocked while any player on
//! that tile is in an evolution ritual (`in_ritual`). Victims receive
//! `moving <K>\n` where K is the push direction relative to the victim's
//! facing (same odd sectors as broadcast: 1 front, 3 right, 5 back, 7 left).

use vstd::prelude::*;

use crate::player::{lemma_first_with_id, Orientation, Player, PlayerSet};
use crate::world::{wrapped, World};

verus! {

/// Outcome of completing a `kick` action.
#[derive(Debug, Clone, PartialEq, Eq)]
pub enum KickOutcome {
    /// At least one victim moved; each entry is `(player_id, K)`.
    Pushed { victims: Vec<(u32, u8)> },
    /// Nobody to kick, or ritual blocks the action.
    Ko,
}

/// Sector of a push in direction `push` felt by a victim facing `victim`.
pub open spec fn push_k(victim: Orientation, push: Orientation) -> u8 {
    let r = (push.quarter() + 4 - victim.quarter()) % 4;
    if r == 0 {
        1
    } else if r == 1 {
        3
    } else if r == 2 {
        5
    } else {
        7
    }
}

/// Map absolute push direction to subject sector K relative to `victim_facing`.
pub fn moving_k(victim_facing: Orientation, push: Orientation) -> (k: u8)
    ensures
        k == push_k(victim_facing, push),
{
    let v = orient_index(victim_facing);
    let p = orient_index(push);
    let r = (p + 4 - v) % 4;
    if r == 0 {
        1  // forward
    } else if r == 1 {
        3  // right
    } else if r == 2 {
        5  // behind
    } else {
        7  // left
    }
}

fn orient_index(o: Orientation) -> (i: u8)
    ensures
        i == o.quarter(),
{
    match o {
        Orientation::North => 0,
        Orientation::East => 1,
        Orientation::South => 2,
        Orientation::West => 3,
    }
}

/// A push the victim's own way is felt from the front (`1`), and turning the
/// victim a quarter to the right turns the felt sector back by two.
pub proof fn law_push_k(victim: Orientation, push: Orientation)
    ensures
        push_k(victim, victim) == 1,
        push_k(victim, push) == 1 || push_k(victim, push) == 3 || push_k(victim, push) == 5
            || push_k(victim, push) == 7,
        push_k(Orientation::from_quarter(victim.quarter() + 1), Orientation::from_quarter(push.quarter() + 1))
            == push_k(victim, push),
{
}

/// Whether `p` stands on `(x, y)` and is not the kicker.
pub open spec fn is_victim(p: Player, kicker: u32, x: u32, y: u32) -> bool {
    p.id != kicker && p.x == x && p.y == y
}

/// The victims of `s`, in order: `(id, K)`.
pub open spec fn victim_list(s: Seq<Player>, kicker: u32, x: u32, y: u32, push: Orientation) -> Seq<(u32, u8)>
    decreases s.len(),
{
    if s.len() == 0 {
        Seq::empty()
    } else {
        let rest = victim_list(s.drop_last(), kicker, x, y, push);
        if is_victim(s.last(), kicker, x, y) {
            rest.push((s.last().id, push_k(s.last().orient, push)))
        } else {
            rest
        }
    }
}

/// Whether some victim of `s` is in a ritual.
pub open spec fn victim_in_ritual(s: Seq<Player>, kicker: u32, x: u32, y: u32) -> bool {
    exists|i: int| 0 <= i < s.len() && is_victim(s[i], kicker, x, y) && #[trigger] s[i].in_ritual
}

/// `p` after being pushed one step toward `push` on a `w` x `h` torus.
pub open spec fn pushed(p: Player, push: Orientation, w: int, h: int) -> Player {
    Player {
        x: wrapped(p.x + push.delta().0, w) as u32,
        y: wrapped(p.y + push.delta().1, h) as u32,
        ..p
    }
}

/// The players after a successful kick.
pub open spec fn after_kick(s: Seq<Player>, kicker: u32, x: u32, y: u32, push: Orientation, w: int, h: int) -> Seq<Player> {
    Seq::new(
        s.len(),
        |i: int|
            if is_victim(s[i], kicker, x, y) {
                pushed(s[i], push, w, h)
            } else {
                s[i]
            },
    )
}

proof fn lemma_victim_list_len(s: Seq<Player>, kicker: u32, x: u32, y: u32, push: Orientation)
    ensures
        victim_list(s, kicker, x, y, push).len() == 0 <==> (forall|i: int| 0 <= i < s.len() ==> !#[trigger] is_victim(s[i], kicker, x, y)),
    decreases s.len(),
{
    if s.len() > 0 {
        lemma_victim_list_len(s.drop_last(), kicker, x, y, push);
        if !is_victim(s.last(), kicker, x, y) {
            assert forall|i: int| 0 <= i < s.len() - 1 implies s.drop_last()[i] == s[i] by {}
        }
    }
}

/// Apply `kick` for `kicker_id`. Does not mutate tile resources.
pub fn apply_kick(kicker_id: u32, players: &mut PlayerSet, world: &World) -> (out: KickOutcome)
    requires
        world.wf(),
        old(players).wf(),
    ensures
        final(players).wf(),
        final(players).next() == old(players).next(),
        match old(players).lookup(kicker_id) {
            None => out == KickOutcome::Ko && *final(players) == *old(players),
            Some(k) => {
                let blocked = k.in_ritual || victim_list(old(players).members(), kicker_id, k.x, k.y, k.orient).len() == 0
                    || victim_in_ritual(old(players).members(), kicker_id, k.x, k.y);
                if blocked {
                    out == KickOutcome::Ko && *final(players) == *old(players)
                } else {
                    &&& out matches KickOutcome::Pushed { victims } && victims@ == victim_list(
                        old(players).members(),
                        kicker_id,
                        k.x,
                        k.y,
                        k.orient,
                    )
                    &&& final(players).members() == after_kick(
                        old(players).members(),
                        kicker_id,
                        k.x,
                        k.y,
                        k.orient,
                        world.w() as int,
                        world.h() as int,
                    )
                }
            },
        },
{
    let kicker = match players.get(kicker_id) {
        Some(k) => k,
        None => {
            return KickOutcome::Ko;
        },
    };
    let kx = kicker.x;
    let ky = kicker.y;
    let push = kicker.orient;
    if kicker.in_ritual {
        return KickOutcome::Ko;
    }
    let ghost s0 = players.members();
    // Collect the victims and check the ritual rule.
    let mut victim_ids: Vec<u32> = Vec::new();
    let mut blocked = false;
    let mut i: usize = 0;
    {
        let ps = players.iter();
        while i < ps.len()
            invariant
                i <= ps@.len(),
                ps@ == s0,
                victim_ids@ == victim_list(s0.subrange(0, i as int), kicker_id, kx, ky, push).map_values(|v: (u32, u8)| v.0),
                blocked == victim_in_ritual(s0.subrange(0, i as int), kicker_id, kx, ky),
            decreases ps@.len() - i,
        {
            let ghost pre = s0.subrange(0, i as int);
            assert(s0.subrange(0, i + 1).drop_last() =~= pre);
            let p = &ps[i];
            if p.id != kicker_id && p.x == kx && p.y == ky {
                victim_ids.push(p.id);
                if p.in_ritual {
                    blocked = true;
                }
            }
            proof {
                let post = s0.subrange(0, i + 1);
                assert(post[i as int] == *p);
                assert(victim_ids@ =~= victim_list(post, kicker_id, kx, ky, push).map_values(|v: (u32, u8)| v.0));
                if victim_in_ritual(pre, kicker_id, kx, ky) {
                    let j = choose|j: int| 0 <= j < pre.len() && is_victim(pre[j], kicker_id, kx, ky) && #[trigger] pre[j].in_ritual;
                    assert(post[j] == pre[j]);
                }
                if victim_in_ritual(post, kicker_id, kx, ky) {
                    let j = choose|j: int| 0 <= j < post.len() && is_victim(post[j], kicker_id, kx, ky) && #[trigger] post[j].in_ritual;
                    if j < i {
                        assert(pre[j] == post[j]);
                    }
                }
            }
            i = i + 1;
        }
    }
    proof {
        assert(s0.subrange(0, i as int) =~= s0);
    }
    if victim_ids.len() == 0 || blocked {
        return KickOutcome::Ko;
    }
    let (dx, dy) = push.step_delta();
    let mut victims: Vec<(u32, u8)> = Vec::new();
    // Move the victims, in order.
    let mut j: usize = 0;
    let ghost n = s0.len();
    while j < players.len()
        invariant
            world.wf(),
            players.members().len() == n,
            s0.len() == n,
            j <= n,
            players.wf(),
            players.next() == old(players).next(),
            forall|a: int| 0 <= a < n ==> #[trigger] players.members()[a] == (if a < j && is_victim(s0[a], kicker_id, kx, ky) {
                pushed(s0[a], push, world.w() as int, world.h() as int)
            } else {
                s0[a]
            }),
            victims@ == victim_list(s0.subrange(0, j as int), kicker_id, kx, ky, push),
            dx == push.delta().0,
            dy == push.delta().1,
        decreases n - j,
    {
        assert(s0.subrange(0, j + 1).drop_last() =~= s0.subrange(0, j as int));
        let id = players.iter()[j].id;
        let is_v = {
            let p = &players.iter()[j];
            p.id != kicker_id && p.x == kx && p.y == ky
        };
        if is_v {
            proof {
                lemma_first_with_id(players.members(), id);
                players.lemma_slot_by_id(id);
                assert(players.members()[j as int].id == id);
                if players.slot(id) != j {
                    assert(players.members()[players.slot(id)].id == id);
                }
            }
            let ghost before = players.members();
            match players.get_mut(id) {
                Some(victim) => {
                    let k = moving_k(victim.orient, push);
                    victim.x = world.wrap_x(victim.x as i64 + dx);
                    victim.y = world.wrap_y(victim.y as i64 + dy);
                    victims.push((id, k));
                },
                None => {},
            }
            proof {
                assert(players.members() == before.update(j as int, pushed(s0[j as int], push, world.w() as int, world.h() as int)));
                assert forall|a: int, b: int|
                    0 <= a < b < players.members().len() implies #[trigger] players.members()[a].id != #[trigger] players.members()[b].id by {
                    assert(before[a].id != before[b].id);
                }
            }
        }
        j = j + 1;
    }
    proof {
        assert(s0.subrange(0, j as int) =~= s0);
        assert(players.members() =~= after_kick(s0, kicker_id, kx, ky, push, world.w() as int, world.h() as int));
        lemma_victim_list_len(s0, kicker_id, kx, ky, push);
    }
    KickOutcome::Pushed { victims }
}

/// A kick moves nobody off the map and never changes anyone's facing, level,
/// inventory or team; players off the kicker's square, and the kicker, stay put.
pub proof fn law_kick_moves_only_victims(s: Seq<Player>, kicker: u32, x: u32, y: u32, push: Orientation, w: int, h: int, i: int)
    requires
        w > 0,
        h > 0,
        w <= u32::MAX,
        h <= u32::MAX,
        0 <= i < s.len(),
    ensures
        ({
            let a = after_kick(s, kicker, x, y, push, w, h)[i];
            &&& a.id == s[i].id
            &&& a.orient == s[i].orient
            &&& a.level == s[i].level
            &&& a.inventory == s[i].inventory
            &&& a.team == s[i].team
            &&& !is_victim(s[i], kicker, x, y) ==> a == s[i]
            &&& is_victim(s[i], kicker, x, y) ==> a.x < w && a.y < h
        }),
{
}

/// Every other player on the square appears in the victim list with the
/// sector it feels the push from, and a player off the square or the kicker
/// does not.
proof fn lemma_victim_list_members(s: Seq<Player>, kicker: u32, x: u32, y: u32, push: Orientation)
    ensures
        forall|i: int|
            0 <= i < s.len() && s[i].id != kicker && s[i].x == x && s[i].y == y ==> victim_list(s, kicker, x, y, push).contains(
                (s[i].id, push_k(s[i].orient, push)),
            ),
        forall|e: (u32, u8)|
            #[trigger] victim_list(s, kicker, x, y, push).contains(e) ==> e.0 != kicker && exists|i: int|
                0 <= i < s.len() && (#[trigger] s[i]).id == e.0 && s[i].x == x && s[i].y == y,
    decreases s.len(),
{
    broadcast use vstd::seq_lib::lemma_seq_contains_after_push;
    if s.len() > 0 {
        let d = s.drop_last();
        lemma_victim_list_members(d, kicker, x, y, push);
        let v = victim_list(s, kicker, x, y, push);
        let vd = victim_list(d, kicker, x, y, push);
        assert forall|i: int| 0 <= i < s.len() && s[i].id != kicker && s[i].x == x && s[i].y == y implies v.contains(
            (s[i].id, push_k(s[i].orient, push)),
        ) by {
            if i < s.len() - 1 {
                assert(d[i] == s[i]);
                assert(vd.contains((d[i].id, push_k(d[i].orient, push))));
            }
        }
        assert forall|e: (u32, u8)| #[trigger] v.contains(e) implies e.0 != kicker && exists|i: int|
            0 <= i < s.len() && (#[trigger] s[i]).id == e.0 && s[i].x == x && s[i].y == y by {
            if vd.contains(e) {
                let i = choose|i: int| 0 <= i < d.len() && (#[trigger] d[i]).id == e.0 && d[i].x == x && d[i].y == y;
                assert(s[i] == d[i]);
            } else {
                assert(s[s.len() - 1] == s.last());
            }
        }
    }
}

/// A kick pushes every other player standing on the kicker's square, whatever
/// order they joined in, one step the kicker's way (wrapping around the map)
/// and lists each with the sector it feels the push from; it lists nobody
/// else and moves nobody else. A kick finds victims exactly when somebody
/// else shares the square.
pub proof fn law_kick_pushes_everyone_on_square(
    s: Seq<Player>,
    kicker: u32,
    x: u32,
    y: u32,
    push: Orientation,
    w: int,
    h: int,
)
    requires
        0 < w <= u32::MAX,
        0 < h <= u32::MAX,
    ensures
        ({
            let step: (int, int) = match push {
                Orientation::North => (0, -1),
                Orientation::East => (1, 0),
                Orientation::South => (0, 1),
                Orientation::West => (-1, 0),
            };
            let a = after_kick(s, kicker, x, y, push, w, h);
            let v = victim_list(s, kicker, x, y, push);
            &&& a.len() == s.len()
            &&& forall|i: int|
                0 <= i < s.len() && s[i].id != kicker && s[i].x == x && s[i].y == y ==> {
                    &&& (#[trigger] a[i]).x == (x + step.0) % w
                    &&& a[i].y == (y + step.1) % h
                    &&& a[i] == Player { x: a[i].x, y: a[i].y, ..s[i] }
                    &&& v.contains((s[i].id, push_k(s[i].orient, push)))
                }
            &&& forall|i: int| 0 <= i < s.len() && !(s[i].id != kicker && s[i].x == x && s[i].y == y) ==> #[trigger] a[i] == s[i]
            &&& forall|e: (u32, u8)|
                #[trigger] v.contains(e) ==> e.0 != kicker && exists|i: int|
                    0 <= i < s.len() && (#[trigger] s[i]).id == e.0 && s[i].x == x && s[i].y == y
            &&& (v.len() > 0 <==> exists|i: int| 0 <= i < s.len() && (#[trigger] s[i]).id != kicker && s[i].x == x && s[i].y == y)
        }),
{
    lemma_victim_list_members(s, kicker, x, y, push);
    lemma_victim_list_len(s, kicker, x, y, push);
    let v = victim_list(s, kicker, x, y, push);
    if exists|i: int| 0 <= i < s.len() && (#[trigger] s[i]).id != kicker && s[i].x == x && s[i].y == y {
        let i = choose|i: int| 0 <= i < s.len() && (#[trigger] s[i]).id != kicker && s[i].x == x && s[i].y == y;
        assert(is_victim(s[i], kicker, x, y));
    }
    if v.len() > 0 {
        let i = choose|i: int| 0 <= i < s.len() && is_victim(#[trigger] s[i], kicker, x, y);
        assert(s[i].id != kicker && s[i].x == x && s[i].y == y);
    }
}

} // verus!
