//! Player spawn state and command queue hook.
//!
//! On a successful team handshake the server creates a [`Player`] with the
//! subject starting loadout:
//!
//! - level [`STARTING_LEVEL`] (1)
//! - [`STARTING_FOOD`] (10) food -> [`STARTING_LIFE_TU`] (1260) time units of life
//! - zero of every stone type
//! - membership on the joined team
//! - a random map position and facing (N/E/S/W)
//!
//! Life is stored as remaining time units (`life_tu`). One food unit equals
//! [`FOOD_LIFE_TU`] (126) time units. The server drains one TU of life per game
//! time unit; reaching 0 sends `death` and disconnects.

use std::time::Instant;

use vstd::prelude::*;

use crate::commands::CmdQueue;
use crate::text::{decimal, push_decimal, push_str, str_eq, to_owned_string};
use crate::time::{instant_earlier, instant_lt};
use crate::world::{draw_index, wrapped, xorshift, SeededRng, StoneKind, Tile, World};

verus! {

/// One food unit grants this many time units of life.
pub const FOOD_LIFE_TU: u32 = 126;

/// Food units granted at spawn (converted immediately into life TU).
pub const STARTING_FOOD: u32 = 10;

/// Starting life: 10 food x 126 TU = 1260.
pub const STARTING_LIFE_TU: u32 = STARTING_FOOD * FOOD_LIFE_TU;

/// Every new player begins at this level.
pub const STARTING_LEVEL: u8 = 1;

/// Cardinal facing used by movement / kick / vision.
#[derive(Debug, Clone, Copy, PartialEq, Eq, Hash)]
pub enum Orientation {
    North,
    East,
    South,
    West,
}

impl Orientation {
    pub const ALL: [Orientation; 4] = [
        Orientation::North,
        Orientation::East,
        Orientation::South,
        Orientation::West,
    ];

    /// Quarter turns clockwise from north.
    pub open spec fn quarter(self) -> int {
        match self {
            Orientation::North => 0,
            Orientation::East => 1,
            Orientation::South => 2,
            Orientation::West => 3,
        }
    }

    /// The facing `q` quarter turns clockwise from north (`q` taken modulo 4).
    pub open spec fn from_quarter(q: int) -> Orientation {
        let r = q % 4;
        if r == 0 {
            Orientation::North
        } else if r == 1 {
            Orientation::East
        } else if r == 2 {
            Orientation::South
        } else {
            Orientation::West
        }
    }

    /// One-step offset `(dx, dy)`; `+x` is east, `+y` is south.
    pub open spec fn delta(self) -> (int, int) {
        match self {
            Orientation::North => (0, -1),
            Orientation::East => (1, 0),
            Orientation::South => (0, 1),
            Orientation::West => (-1, 0),
        }
    }

    pub fn as_str(self) -> (s: &'static str)
        ensures
            s@ == (match self {
                Orientation::North => "N"@,
                Orientation::East => "E"@,
                Orientation::South => "S"@,
                Orientation::West => "W"@,
            }),
    {
        match self {
            Orientation::North => "N",
            Orientation::East => "E",
            Orientation::South => "S",
            Orientation::West => "W",
        }
    }

    /// Turn 90 degrees clockwise (`right` command).
    pub fn turn_right(self) -> (o: Orientation)
        ensures
            o == Orientation::from_quarter(self.quarter() + 1),
    {
        match self {
            Orientation::North => Orientation::East,
            Orientation::East => Orientation::South,
            Orientation::South => Orientation::West,
            Orientation::West => Orientation::North,
        }
    }

    /// Turn 90 degrees counter-clockwise (`left` command).
    pub fn turn_left(self) -> (o: Orientation)
        ensures
            o == Orientation::from_quarter(self.quarter() + 3),
    {
        match self {
            Orientation::North => Orientation::West,
            Orientation::West => Orientation::South,
            Orientation::South => Orientation::East,
            Orientation::East => Orientation::North,
        }
    }

    /// One-step delta `(dx, dy)` when advancing while facing this way.
    ///
    /// Grid convention: `+x` east, `+y` south (row-major tiles).
    pub fn step_delta(self) -> (d: (i64, i64))
        ensures
            d.0 == self.delta().0,
            d.1 == self.delta().1,
    {
        match self {
            Orientation::North => (0, -1),
            Orientation::East => (1, 0),
            Orientation::South => (0, 1),
            Orientation::West => (-1, 0),
        }
    }

    /// The facing at position `i` of [`Orientation::ALL`].
    pub fn from_index(i: usize) -> (o: Orientation)
        requires
            i < 4,
        ensures
            o == Orientation::from_quarter(i as int),
    {
        if i == 0 {
            Orientation::North
        } else if i == 1 {
            Orientation::East
        } else if i == 2 {
            Orientation::South
        } else {
            Orientation::West
        }
    }
}

/// Turning left undoes turning right and the reverse; four quarter turns the
/// same way come back to the start; a facing is its own quarter count.
pub proof fn law_turns(o: Orientation)
    ensures
        Orientation::from_quarter(Orientation::from_quarter(o.quarter() + 1).quarter() + 3) == o,
        Orientation::from_quarter(Orientation::from_quarter(o.quarter() + 3).quarter() + 1) == o,
        Orientation::from_quarter(o.quarter() + 4) == o,
        Orientation::from_quarter(o.quarter()) == o,
{
}

/// Carried resources. `life_tu` is survival time left (from food).
#[derive(Debug, Clone, PartialEq, Eq)]
pub struct Inventory {
    /// Remaining life in time units (starts at [`STARTING_LIFE_TU`]).
    pub life_tu: u32,
    pub jade: u32,
    pub peridot: u32,
    pub amber: u32,
    pub amethyst: u32,
    pub garnet: u32,
    pub ammolite: u32,
}

impl Inventory {
    /// Count carried of `kind`.
    pub open spec fn count(self, kind: StoneKind) -> u32 {
        match kind {
            StoneKind::Jade => self.jade,
            StoneKind::Peridot => self.peridot,
            StoneKind::Amber => self.amber,
            StoneKind::Amethyst => self.amethyst,
            StoneKind::Garnet => self.garnet,
            StoneKind::Ammolite => self.ammolite,
        }
    }

    /// The inventory with the count of `kind` replaced by `n`.
    pub open spec fn with_count(self, kind: StoneKind, n: u32) -> Inventory {
        match kind {
            StoneKind::Jade => Inventory { jade: n, ..self },
            StoneKind::Peridot => Inventory { peridot: n, ..self },
            StoneKind::Amber => Inventory { amber: n, ..self },
            StoneKind::Amethyst => Inventory { amethyst: n, ..self },
            StoneKind::Garnet => Inventory { garnet: n, ..self },
            StoneKind::Ammolite => Inventory { ammolite: n, ..self },
        }
    }

    /// Sum of all carried stones.
    pub open spec fn stone_sum(self) -> int {
        self.jade + self.peridot + self.amber + self.amethyst + self.garnet + self.ammolite
    }

    /// Subject starting bag: 10 food -> 1260 TU life, no stones.
    pub fn starting() -> (inv: Inventory)
        ensures
            inv == (Inventory {
                life_tu: STARTING_LIFE_TU,
                jade: 0,
                peridot: 0,
                amber: 0,
                amethyst: 0,
                garnet: 0,
                ammolite: 0,
            }),
    {
        Inventory {
            life_tu: STARTING_LIFE_TU,
            jade: 0,
            peridot: 0,
            amber: 0,
            amethyst: 0,
            garnet: 0,
            ammolite: 0,
        }
    }

    pub fn stone(&self, kind: StoneKind) -> (n: u32)
        ensures
            n == self.count(kind),
    {
        match kind {
            StoneKind::Jade => self.jade,
            StoneKind::Peridot => self.peridot,
            StoneKind::Amber => self.amber,
            StoneKind::Amethyst => self.amethyst,
            StoneKind::Garnet => self.garnet,
            StoneKind::Ammolite => self.ammolite,
        }
    }

    pub fn total_stones(&self) -> (n: u32)
        requires
            self.stone_sum() <= u32::MAX,
        ensures
            n == self.stone_sum(),
    {
        self.jade + self.peridot + self.amber + self.amethyst + self.garnet + self.ammolite
    }

    pub fn add_stone(&mut self, kind: StoneKind)
        requires
            old(self).count(kind) < u32::MAX,
        ensures
            *final(self) == old(self).with_count(kind, (old(self).count(kind) + 1) as u32),
    {
        match kind {
            StoneKind::Jade => self.jade = self.jade + 1,
            StoneKind::Peridot => self.peridot = self.peridot + 1,
            StoneKind::Amber => self.amber = self.amber + 1,
            StoneKind::Amethyst => self.amethyst = self.amethyst + 1,
            StoneKind::Garnet => self.garnet = self.garnet + 1,
            StoneKind::Ammolite => self.ammolite = self.ammolite + 1,
        }
    }

    /// Remove one stone of `kind`. Returns `false` if none left.
    pub fn take_stone(&mut self, kind: StoneKind) -> (taken: bool)
        ensures
            taken == (old(self).count(kind) > 0),
            *final(self) == (if taken {
                old(self).with_count(kind, (old(self).count(kind) - 1) as u32)
            } else {
                *old(self)
            }),
    {
        if self.stone(kind) == 0 {
            return false;
        }
        match kind {
            StoneKind::Jade => self.jade = self.jade - 1,
            StoneKind::Peridot => self.peridot = self.peridot - 1,
            StoneKind::Amber => self.amber = self.amber - 1,
            StoneKind::Amethyst => self.amethyst = self.amethyst - 1,
            StoneKind::Garnet => self.garnet = self.garnet - 1,
            StoneKind::Ammolite => self.ammolite = self.ammolite - 1,
        }
        true
    }

    /// Gain one food unit of life (+[`FOOD_LIFE_TU`]), saturating.
    pub fn add_food_life(&mut self)
        ensures
            *final(self) == (Inventory { life_tu: saturating_life(old(self).life_tu), ..*old(self) }),
    {
        self.life_tu = self.life_tu.saturating_add(FOOD_LIFE_TU);
    }

    /// Spend one food unit of life (-[`FOOD_LIFE_TU`]). Returns `false` if not enough.
    pub fn take_food_life(&mut self) -> (taken: bool)
        ensures
            taken == (old(self).life_tu >= FOOD_LIFE_TU),
            *final(self) == (if taken {
                Inventory { life_tu: (old(self).life_tu - FOOD_LIFE_TU) as u32, ..*old(self) }
            } else {
                *old(self)
            }),
    {
        if self.life_tu < FOOD_LIFE_TU {
            return false;
        }
        self.life_tu = self.life_tu - FOOD_LIFE_TU;
        true
    }
}

/// Life after eating one food unit: `life + 126`, saturating at `u32::MAX`.
pub open spec fn saturating_life(life: u32) -> u32 {
    if life + FOOD_LIFE_TU > u32::MAX {
        u32::MAX
    } else {
        (life + FOOD_LIFE_TU) as u32
    }
}

/// In-world player created when a client finishes the team handshake.
#[derive(Debug)]
pub struct Player {
    pub id: u32,
    pub team: String,
    pub x: u32,
    pub y: u32,
    pub orient: Orientation,
    pub level: u8,
    pub inventory: Inventory,
    /// True while this player participates in an evolution ritual.
    /// Kick is forbidden on a tile while any occupant has this set.
    pub in_ritual: bool,
    /// Successful requests awaiting a response.
    pub queue: CmdQueue,
}

/// The `inventory` reply for `inv`.
pub open spec fn inventory_text(inv: Inventory) -> Seq<char> {
    "{food "@ + decimal(inv.life_tu as nat) + ", jade "@ + decimal(inv.jade as nat) + ", peridot "@
        + decimal(inv.peridot as nat) + ", amber "@ + decimal(inv.amber as nat) + ", amethyst "@
        + decimal(inv.amethyst as nat) + ", garnet "@ + decimal(inv.garnet as nat) + ", ammolite "@
        + decimal(inv.ammolite as nat) + "}\n"@
}

/// Position, facing and generator state of a fresh spawn on a `w` x `h` map
/// drawn from generator state `s`.
pub open spec fn spawn_draw(s: u64, w: u32, h: u32) -> (u32, u32, Orientation, u64) {
    let s1 = xorshift(s);
    let s2 = xorshift(s1);
    let s3 = xorshift(s2);
    (
        draw_index(s, w as usize) as u32,
        draw_index(s1, h as usize) as u32,
        Orientation::from_quarter(draw_index(s2, 4) as int),
        s3,
    )
}

/// Outcome of `pick object` for a player with inventory `inv` on tile `t`:
/// success, new inventory, new tile.
pub open spec fn pick_outcome(inv: Inventory, t: Tile, object: Seq<char>) -> (bool, Inventory, Tile) {
    if object == "food"@ {
        if t.has_food() {
            (true, Inventory { life_tu: saturating_life(inv.life_tu), ..inv }, t.with_food(false))
        } else {
            (false, inv, t)
        }
    } else {
        match StoneKind::named(object) {
            Some(k) => if t.holds(k) {
                (true, inv.with_count(k, (inv.count(k) + 1) as u32), t.with_stone(k, false))
            } else {
                (false, inv, t)
            },
            None => (false, inv, t),
        }
    }
}

/// Outcome of `drop object` for a player with inventory `inv` on tile `t`.
pub open spec fn drop_outcome(inv: Inventory, t: Tile, object: Seq<char>) -> (bool, Inventory, Tile) {
    if object == "food"@ {
        if inv.life_tu >= FOOD_LIFE_TU && !t.has_food() {
            (true, Inventory { life_tu: (inv.life_tu - FOOD_LIFE_TU) as u32, ..inv }, t.with_food(true))
        } else {
            (false, inv, t)
        }
    } else {
        match StoneKind::named(object) {
            Some(k) => if inv.count(k) > 0 && !t.holds(k) && t.kinds() < 3 {
                (true, inv.with_count(k, (inv.count(k) - 1) as u32), t.with_stone(k, true))
            } else {
                (false, inv, t)
            },
            None => (false, inv, t),
        }
    }
}

impl Player {
    /// Spawn on a random tile of `world`, facing a random direction.
    pub fn spawn(id: u32, team: &str, world: &World, rng: &mut SeededRng) -> (p: Player)
        requires
            world.wf(),
        ensures
            ({
                let d = spawn_draw(old(rng).state_of(), world.w() as u32, world.h() as u32);
                &&& p.x == d.0
                &&& p.y == d.1
                &&& p.orient == d.2
                &&& final(rng).state_of() == d.3
            }),
            p.x < world.w(),
            p.y < world.h(),
            p.id == id,
            p.team@ == team@,
            p.level == STARTING_LEVEL,
            p.inventory == Inventory::starting_spec(),
            !p.in_ritual,
            p.queue.wf(),
            p.queue.pending().len() == 0,
    {
        proof {
            world.lemma_dims();
        }
        let x = rng.gen_index(world.width() as usize) as u32;
        let y = rng.gen_index(world.height() as usize) as u32;
        let orient = Orientation::from_index(rng.gen_index(4));
        Player {
            id,
            team: to_owned_string(team),
            x,
            y,
            orient,
            level: STARTING_LEVEL,
            inventory: Inventory::starting(),
            in_ritual: false,
            queue: CmdQueue::new(),
        }
    }

    /// Drain `tu` life units. Returns `true` when life reaches 0 (starvation).
    pub fn tick_life(&mut self, tu: u32) -> (starved: bool)
        ensures
            final(self).inventory.life_tu == (if tu >= old(self).inventory.life_tu {
                0
            } else {
                old(self).inventory.life_tu - tu
            }),
            starved == (final(self).inventory.life_tu == 0),
            final(self).inventory == (Inventory {
                life_tu: final(self).inventory.life_tu,
                ..old(self).inventory
            }),
            final(self).id == old(self).id,
            final(self).team == old(self).team,
            final(self).x == old(self).x,
            final(self).y == old(self).y,
            final(self).orient == old(self).orient,
            final(self).level == old(self).level,
            final(self).in_ritual == old(self).in_ritual,
            final(self).queue == old(self).queue,
    {
        if tu == 0 {
            return self.inventory.life_tu == 0;
        }
        if tu >= self.inventory.life_tu {
            self.inventory.life_tu = 0;
            true
        } else {
            self.inventory.life_tu = self.inventory.life_tu - tu;
            false
        }
    }

    /// Format the subject `inventory` response line (food = remaining life TU).
    pub fn inventory_reply(&self) -> (s: String)
        ensures
            s@ == inventory_text(self.inventory),
    {
        let i = &self.inventory;
        let mut s = to_owned_string("{food ");
        push_decimal(&mut s, i.life_tu as u64);
        push_str(&mut s, ", jade ");
        push_decimal(&mut s, i.jade as u64);
        push_str(&mut s, ", peridot ");
        push_decimal(&mut s, i.peridot as u64);
        push_str(&mut s, ", amber ");
        push_decimal(&mut s, i.amber as u64);
        push_str(&mut s, ", amethyst ");
        push_decimal(&mut s, i.amethyst as u64);
        push_str(&mut s, ", garnet ");
        push_decimal(&mut s, i.garnet as u64);
        push_str(&mut s, ", ammolite ");
        push_decimal(&mut s, i.ammolite as u64);
        push_str(&mut s, "}\n");
        s
    }

    /// Move one tile forward; coordinates wrap on the torus.
    pub fn advance(&mut self, world: &World)
        requires
            world.wf(),
        ensures
            final(self).x == wrapped(old(self).x + old(self).orient.delta().0, world.w() as int),
            final(self).y == wrapped(old(self).y + old(self).orient.delta().1, world.h() as int),
            final(self).id == old(self).id,
            final(self).team == old(self).team,
            final(self).orient == old(self).orient,
            final(self).level == old(self).level,
            final(self).inventory == old(self).inventory,
            final(self).in_ritual == old(self).in_ritual,
            final(self).queue == old(self).queue,
    {
        let (dx, dy) = self.orient.step_delta();
        self.x = world.wrap_x(self.x as i64 + dx);
        self.y = world.wrap_y(self.y as i64 + dy);
    }

    /// Face 90 degrees to the right.
    pub fn turn_right(&mut self)
        ensures
            *final(self) == (Player { orient: Orientation::from_quarter(old(self).orient.quarter() + 1), ..*old(self) }),
    {
        self.orient = self.orient.turn_right();
    }

    /// Face 90 degrees to the left.
    pub fn turn_left(&mut self)
        ensures
            *final(self) == (Player { orient: Orientation::from_quarter(old(self).orient.quarter() + 3), ..*old(self) }),
    {
        self.orient = self.orient.turn_left();
    }

    /// Pick `object` from the current tile into inventory (`ok` / `ko`).
    ///
    /// `food` adds [`FOOD_LIFE_TU`] life; stones increment the matching count.
    pub fn pick_object(&mut self, object: &str, world: &mut World) -> (ok: bool)
        requires
            old(world).wf(),
            old(self).x < old(world).w(),
            old(self).y < old(world).h(),
            StoneKind::named(object@) matches Some(k) ==> old(self).inventory.count(k) < u32::MAX,
        ensures
            ({
                let o = pick_outcome(
                    old(self).inventory,
                    old(world).tile_at(old(self).x as int, old(self).y as int),
                    object@,
                );
                &&& ok == o.0
                &&& final(self).inventory == o.1
                &&& final(world).cells() == old(world).cells().update(
                    old(self).y * old(world).w() + old(self).x,
                    o.2,
                )
            }),
            final(world).wf(),
            final(world).w() == old(world).w(),
            final(world).h() == old(world).h(),
            final(world).seed_of() == old(world).seed_of(),
            *final(self) == (Player { inventory: final(self).inventory, ..*old(self) }),
    {
        let ghost t0 = old(world).tile_at(old(self).x as int, old(self).y as int);
        proof {
            t0.lemma_tile_updates(StoneKind::Jade, false, StoneKind::Jade);
        }
        let tile = world.tile_mut(self.x, self.y);
        if str_eq(object, "food") {
            if !tile.take_food() {
                return false;
            }
            self.inventory.add_food_life();
            return true;
        }
        let kind = match StoneKind::parse(object) {
            Some(k) => k,
            None => {
                return false;
            },
        };
        proof {
            t0.lemma_tile_updates(kind, false, kind);
        }
        if !tile.take_stone(kind) {
            return false;
        }
        self.inventory.add_stone(kind);
        true
    }

    /// Drop `object` from inventory onto the current tile (`ok` / `ko`).
    ///
    /// Honors tile rules: at most one food; at most one of each stone type;
    /// at most three stone kinds per tile.
    pub fn drop_object(&mut self, object: &str, world: &mut World) -> (ok: bool)
        requires
            old(world).wf(),
            old(self).x < old(world).w(),
            old(self).y < old(world).h(),
        ensures
            ({
                let o = drop_outcome(
                    old(self).inventory,
                    old(world).tile_at(old(self).x as int, old(self).y as int),
                    object@,
                );
                &&& ok == o.0
                &&& final(self).inventory == o.1
                &&& final(world).cells() == old(world).cells().update(
                    old(self).y * old(world).w() + old(self).x,
                    o.2,
                )
            }),
            final(world).wf(),
            final(world).w() == old(world).w(),
            final(world).h() == old(world).h(),
            final(world).seed_of() == old(world).seed_of(),
            *final(self) == (Player { inventory: final(self).inventory, ..*old(self) }),
    {
        let ghost t0 = old(world).tile_at(old(self).x as int, old(self).y as int);
        proof {
            old(world).lemma_cell_index(old(self).x as int, old(self).y as int);
            t0.lemma_tile_updates(StoneKind::Jade, false, StoneKind::Jade);
            assert(old(world).cells().update(old(self).y * old(world).w() + old(self).x, t0) =~= old(world).cells());
        }
        if str_eq(object, "food") {
            if !self.inventory.take_food_life() {
                return false;
            }
            if !world.tile_mut(self.x, self.y).try_add_food() {
                // Restore life if the tile already has food.
                self.inventory.add_food_life();
                return false;
            }
            return true;
        }
        let kind = match StoneKind::parse(object) {
            Some(k) => k,
            None => {
                return false;
            },
        };
        proof {
            t0.lemma_tile_updates(kind, true, kind);
        }
        if !self.inventory.take_stone(kind) {
            return false;
        }
        if !world.tile_mut(self.x, self.y).try_add_stone(kind) {
            self.inventory.add_stone(kind);
            return false;
        }
        true
    }

    /// True when this player still matches the subject start loadout checks.
    pub fn has_starting_loadout(&self) -> (b: bool)
        requires
            self.inventory.stone_sum() <= u32::MAX,
        ensures
            b == (self.level == STARTING_LEVEL && self.inventory.life_tu == STARTING_LIFE_TU
                && self.inventory.stone_sum() == 0),
    {
        self.level == STARTING_LEVEL && self.inventory.life_tu == STARTING_LIFE_TU
            && self.inventory.total_stones() == 0
    }
}

impl Inventory {
    /// The subject starting bag.
    pub open spec fn starting_spec() -> Inventory {
        Inventory {
            life_tu: STARTING_LIFE_TU,
            jade: 0,
            peridot: 0,
            amber: 0,
            amethyst: 0,
            garnet: 0,
            ammolite: 0,
        }
    }
}

/// Picking an object up and dropping it again on the same square gives back
/// the tile and the inventory, unless eating saturated the life counter.
pub proof fn law_pick_then_drop_restores(inv: Inventory, t: Tile, object: Seq<char>)
    requires
        pick_outcome(inv, t, object).0,
        object == "food"@ ==> inv.life_tu + FOOD_LIFE_TU <= u32::MAX,
        StoneKind::named(object) matches Some(k) ==> inv.count(k) < u32::MAX,
        t.within_rules(),
    ensures
        ({
            let p = pick_outcome(inv, t, object);
            let d = drop_outcome(p.1, p.2, object);
            &&& d.0
            &&& d.1 == inv
            &&& d.2 == t
        }),
{
    t.lemma_tile_updates(StoneKind::Jade, false, StoneKind::Jade);
    if object == "food"@ {
        t.with_food(false).lemma_tile_updates(StoneKind::Jade, true, StoneKind::Jade);
        t.lemma_tile_updates(StoneKind::Jade, true, StoneKind::Jade);
        assert(t.with_food(false).with_food(true) == t.with_food(t.has_food()));
    } else {
        let k = StoneKind::named(object).unwrap();
        t.lemma_tile_updates(k, false, k);
        t.with_stone(k, false).lemma_tile_updates(k, true, k);
        assert(t.with_stone(k, false).with_stone(k, true) == t.with_stone(k, t.holds(k)));
    }
}

/// Dropping an object and picking it up again on the same square gives back
/// the tile and the inventory.
pub proof fn law_drop_then_pick_restores(inv: Inventory, t: Tile, object: Seq<char>)
    requires
        drop_outcome(inv, t, object).0,
    ensures
        ({
            let d = drop_outcome(inv, t, object);
            let p = pick_outcome(d.1, d.2, object);
            &&& p.0
            &&& p.1 == inv
            &&& p.2 == t
        }),
{
    t.lemma_tile_updates(StoneKind::Jade, true, StoneKind::Jade);
    if object == "food"@ {
        t.with_food(true).lemma_tile_updates(StoneKind::Jade, false, StoneKind::Jade);
        t.lemma_tile_updates(StoneKind::Jade, false, StoneKind::Jade);
        assert(t.with_food(true).with_food(false) == t.with_food(t.has_food()));
    } else {
        let k = StoneKind::named(object).unwrap();
        t.lemma_tile_updates(k, true, k);
        t.with_stone(k, true).lemma_tile_updates(k, false, k);
        assert(t.with_stone(k, true).with_stone(k, false) == t.with_stone(k, t.holds(k)));
    }
}

/// Picking and dropping move objects between the square and the inventory:
/// for every stone kind, the square's stone plus the carried count stays the
/// same, and the square stays within the tile rules.
pub proof fn law_pick_drop_conserve(inv: Inventory, t: Tile, object: Seq<char>, k: StoneKind)
    requires
        t.within_rules(),
        StoneKind::named(object) matches Some(n) ==> inv.count(n) < u32::MAX,
    ensures
        ({
            let p = pick_outcome(inv, t, object);
            let d = drop_outcome(inv, t, object);
            &&& p.2.within_rules()
            &&& d.2.within_rules()
            &&& (if p.2.holds(k) {
                1int
            } else {
                0int
            }) + p.1.count(k) == (if t.holds(k) {
                1int
            } else {
                0int
            }) + inv.count(k)
            &&& (if d.2.holds(k) {
                1int
            } else {
                0int
            }) + d.1.count(k) == (if t.holds(k) {
                1int
            } else {
                0int
            }) + inv.count(k)
        }),
{
    t.lemma_tile_updates(k, false, k);
    t.lemma_tile_updates(k, true, k);
    if object != "food"@ {
        if let Some(n) = StoneKind::named(object) {
            t.lemma_tile_updates(n, false, k);
            t.lemma_tile_updates(n, true, k);
        }
    }
}

/// Position of the first player in `s` with the given id, or `-1`.
pub open spec fn first_with_id(s: Seq<Player>, id: u32) -> int
    decreases s.len(),
{
    if s.len() == 0 {
        -1
    } else if s[0].id == id {
        0
    } else {
        let r = first_with_id(s.drop_first(), id);
        if r < 0 {
            -1
        } else {
            r + 1
        }
    }
}

/// What [`first_with_id`] finds.
pub proof fn lemma_first_with_id(s: Seq<Player>, id: u32)
    ensures
        -1 <= first_with_id(s, id) < s.len(),
        first_with_id(s, id) >= 0 ==> s[first_with_id(s, id)].id == id,
        forall|j: int| 0 <= j < s.len() && (first_with_id(s, id) < 0 || j < first_with_id(s, id)) ==> #[trigger] s[j].id != id,
    decreases s.len(),
{
    if s.len() > 0 && s[0].id != id {
        lemma_first_with_id(s.drop_first(), id);
        assert forall|j: int| 0 <= j < s.len() && (first_with_id(s, id) < 0 || j < first_with_id(s, id)) implies #[trigger] s[j].id != id by {
            if j > 0 {
                assert(s[j] == s.drop_first()[j - 1]);
            }
        }
    }
}

/// Position of the first key `id` in `keys`, or `-1`.
pub open spec fn first_key(keys: Seq<u32>, id: u32) -> int
    decreases keys.len(),
{
    if keys.len() == 0 {
        -1
    } else if keys[0] == id {
        0
    } else {
        let r = first_key(keys.drop_first(), id);
        if r < 0 {
            -1
        } else {
            r + 1
        }
    }
}

/// What [`first_key`] finds.
pub proof fn lemma_first_key(keys: Seq<u32>, id: u32)
    ensures
        -1 <= first_key(keys, id) < keys.len(),
        first_key(keys, id) >= 0 ==> keys[first_key(keys, id)] == id,
        forall|j: int| 0 <= j < keys.len() && (first_key(keys, id) < 0 || j < first_key(keys, id)) ==> #[trigger] keys[j] != id,
    decreases keys.len(),
{
    if keys.len() > 0 && keys[0] != id {
        lemma_first_key(keys.drop_first(), id);
        assert forall|j: int| 0 <= j < keys.len() && (first_key(keys, id) < 0 || j < first_key(keys, id)) implies #[trigger] keys[j] != id by {
            if j > 0 {
                assert(keys[j] == keys.drop_first()[j - 1]);
            }
        }
    }
}

/// Keys that are the ids of the players at the same positions find the same
/// positions as the ids.
proof fn lemma_keys_find_ids(keys: Seq<u32>, s: Seq<Player>, id: u32)
    requires
        keys.len() == s.len(),
        forall|j: int| 0 <= j < keys.len() ==> #[trigger] keys[j] == s[j].id,
    ensures
        first_key(keys, id) == first_with_id(s, id),
    decreases keys.len(),
{
    if keys.len() > 0 {
        assert(keys[0] == s[0].id);
        assert forall|j: int| 0 <= j < keys.drop_first().len() implies #[trigger] keys.drop_first()[j] == s.drop_first()[j].id by {
            assert(keys[j + 1] == s[j + 1].id);
        }
        lemma_keys_find_ids(keys.drop_first(), s.drop_first(), id);
    }
}

/// Registry of live players, kept in order of arrival. Each player is filed
/// under the id it was spawned with, its key, which stays fixed whatever is
/// done to the player.
#[derive(Debug, Default)]
pub struct PlayerSet {
    next_id: u32,
    keys: Vec<u32>,
    players: Vec<Player>,
}

impl PlayerSet {
    /// One key per player, no key twice. Every operation keeps this, whatever
    /// is done to the players themselves.
    pub closed spec fn filed(self) -> bool {
        &&& self.keys@.len() == self.players@.len()
        &&& forall|i: int, j: int| 0 <= i < j < self.keys@.len() ==> self.keys@[i] != self.keys@[j]
    }

    /// The players, in order of arrival.
    pub closed spec fn members(self) -> Seq<Player> {
        self.players@
    }

    /// The key of each player, in the same order.
    pub closed spec fn keys(self) -> Seq<u32> {
        self.keys@
    }

    /// Id the next spawn receives.
    pub closed spec fn next(self) -> u32 {
        self.next_id
    }

    /// Position of the player filed under `id` in [`PlayerSet::members`], or `-1`.
    pub open spec fn slot(self, id: u32) -> int {
        first_key(self.keys(), id)
    }

    /// The player filed under `id`, if any.
    pub open spec fn lookup(self, id: u32) -> Option<Player> {
        if self.slot(id) >= 0 {
            Some(self.members()[self.slot(id)])
        } else {
            None
        }
    }

    /// Every key lies below the next id: the ids handed out have not wrapped
    /// around yet, so the next spawn files a new player.
    pub open spec fn fresh(self) -> bool {
        forall|j: int| 0 <= j < self.keys().len() ==> #[trigger] self.keys()[j] < self.next()
    }

    /// Each player's `id` is the key it is filed under, so no two players
    /// share an id and finding by id finds by key.
    pub open spec fn wf(self) -> bool {
        &&& self.filed()
        &&& self.keys().len() == self.members().len()
        &&& forall|j: int| 0 <= j < self.keys().len() ==> #[trigger] self.keys()[j] == self.members()[j].id
        &&& forall|i: int, j: int|
            0 <= i < j < self.members().len() ==> #[trigger] self.members()[i].id != #[trigger] self.members()[j].id
    }

    /// In a well-formed set, finding by key is finding by id.
    pub proof fn lemma_slot_by_id(self, id: u32)
        requires
            self.wf(),
        ensures
            self.slot(id) == first_with_id(self.members(), id),
    {
        lemma_keys_find_ids(self.keys(), self.members(), id);
    }

    /// Distinct ids that are the keys make a well-formed set.
    proof fn lemma_wf_from_ids(self)
        requires
            self.filed(),
            forall|j: int| 0 <= j < self.keys().len() ==> #[trigger] self.keys()[j] == self.members()[j].id,
        ensures
            self.wf(),
    {
        assert forall|i: int, j: int| 0 <= i < j < self.members().len() implies #[trigger] self.members()[i].id
            != #[trigger] self.members()[j].id by {
            assert(self.keys()[i] == self.members()[i].id);
            assert(self.keys()[j] == self.members()[j].id);
        }
    }

    pub fn new() -> (s: PlayerSet)
        ensures
            s.members().len() == 0,
            s.next() == 0,
            s.wf(),
            s.fresh(),
            s.filed(),
    {
        let s = PlayerSet { next_id: 0, keys: Vec::new(), players: Vec::new() };
        proof {
            s.lemma_wf_from_ids();
        }
        s
    }

    pub fn len(&self) -> (n: usize)
        ensures
            n == self.members().len(),
    {
        self.players.len()
    }

    pub fn is_empty(&self) -> (b: bool)
        ensures
            b == (self.members().len() == 0),
    {
        self.players.len() == 0
    }

    fn find(&self, id: u32) -> (i: Option<usize>)
        requires
            self.filed(),
        ensures
            match i {
                Some(k) => k == self.slot(id) && k < self.members().len() && self.keys()[k as int] == id,
                None => self.slot(id) < 0,
            },
    {
        proof {
            lemma_first_key(self.keys(), id);
        }
        let mut k: usize = 0;
        while k < self.keys.len()
            invariant
                k <= self.keys@.len(),
                self.keys@.len() == self.players@.len(),
                forall|j: int| 0 <= j < k ==> #[trigger] self.keys@[j] != id,
                -1 <= first_key(self.keys(), id) < self.keys().len(),
                first_key(self.keys(), id) >= 0 ==> self.keys()[first_key(self.keys(), id)] == id,
                forall|j: int| 0 <= j < self.keys().len() && (first_key(self.keys(), id) < 0 || j < first_key(self.keys(), id)) ==> #[trigger] self.keys()[j] != id,
            decreases self.keys@.len() - k,
        {
            if self.keys[k] == id {
                return Some(k);
            }
            k = k + 1;
        }
        None
    }

    /// The player filed under `id`.
    pub fn get(&self, id: u32) -> (p: Option<&Player>)
        requires
            self.filed(),
        ensures
            match p {
                Some(q) => self.lookup(id) == Some(*q) && 0 <= self.slot(id) < self.members().len(),
                None => self.lookup(id).is_none(),
            },
            self.wf() ==> self.slot(id) == first_with_id(self.members(), id),
    {
        proof {
            if self.wf() {
                self.lemma_slot_by_id(id);
            }
        }
        match self.find(id) {
            Some(i) => Some(&self.players[i]),
            None => None,
        }
    }

    /// The player filed under `id`, for changes. Its key stays as it was; the
    /// set stays well formed when the player's `id` is left alone.
    pub fn get_mut(&mut self, id: u32) -> (p: Option<&mut Player>)
        requires
            old(self).filed(),
        ensures
            final(self).filed(),
            old(self).lookup(id).is_some() == p.is_some(),
            old(self).wf() ==> old(self).slot(id) == first_with_id(old(self).members(), id),
            p.is_none() ==> *final(self) == *old(self),
            p matches Some(q) ==> {
                &&& old(self).lookup(id) == Some(*q)
                &&& 0 <= old(self).slot(id) < old(self).members().len()
                &&& final(self).members() == old(self).members().update(old(self).slot(id), *final(q))
                &&& final(self).keys() == old(self).keys()
                &&& final(self).next() == old(self).next()
                &&& (old(self).wf() && final(q).id == q.id ==> final(self).wf())
            },
    {
        proof {
            if self.wf() {
                self.lemma_slot_by_id(id);
            }
        }
        match self.find(id) {
            Some(i) => Some(&mut self.players[i]),
            None => None,
        }
    }

    /// Allocate an id, spawn, and file the new player under it. Returns the new
    /// player id.
    pub fn spawn(&mut self, team: &str, world: &World, rng: &mut SeededRng) -> (id: u32)
        requires
            world.wf(),
            old(self).filed(),
        ensures
            final(self).filed(),
            id == old(self).next(),
            final(self).next() == (if old(self).next() == u32::MAX {
                0
            } else {
                (old(self).next() + 1) as u32
            }),
            final(self).slot(id) >= 0,
            fresh_spawn(final(self).members()[final(self).slot(id)], id, team@, *world, old(rng).state_of()),
            final(rng).state_of() == spawn_draw(old(rng).state_of(), world.w() as u32, world.h() as u32).3,
            old(self).slot(id) >= 0 ==> final(self).members() == old(self).members().update(
                old(self).slot(id),
                final(self).members()[final(self).slot(id)],
            ) && final(self).keys() == old(self).keys(),
            old(self).slot(id) < 0 ==> final(self).members() == old(self).members().push(
                final(self).members()[final(self).slot(id)],
            ) && final(self).keys() == old(self).keys().push(id),
            old(self).fresh() ==> old(self).slot(id) < 0,
            old(self).fresh() && old(self).next() < u32::MAX ==> final(self).fresh(),
            old(self).wf() ==> final(self).wf(),
    {
        let id = self.next_id;
        self.next_id = self.next_id.wrapping_add(1);
        let player = Player::spawn(id, team, world, rng);
        let ghost s0 = self.members();
        let ghost k0 = self.keys();
        proof {
            lemma_first_key(k0, id);
            assert(k0 == old(self).keys());
            if old(self).fresh() && first_key(k0, id) >= 0 {
                assert(old(self).keys()[first_key(k0, id)] < old(self).next());
            }
        }
        match self.find(id) {
            Some(i) => {
                self.players.set(i, player);
                proof {
                    lemma_first_key(self.keys(), id);
                    if old(self).wf() {
                        self.lemma_wf_from_ids();
                    }
                }
            },
            None => {
                self.keys.push(id);
                self.players.push(player);
                proof {
                    lemma_first_key(self.keys(), id);
                    let n = k0.len() as int;
                    assert(self.keys()[n] == id);
                    if first_key(self.keys(), id) < n {
                        assert(k0[first_key(self.keys(), id)] == id);
                    }
                    if old(self).wf() {
                        self.lemma_wf_from_ids();
                    }
                    if old(self).fresh() && old(self).next() < u32::MAX {
                        assert forall|j: int| 0 <= j < self.keys().len() implies #[trigger] self.keys()[j] < self.next() by {
                            if j < n {
                                assert(self.keys()[j] == k0[j]);
                            }
                        }
                    }
                }
            },
        }
        id
    }

    /// Take out the player filed under `id`.
    pub fn remove(&mut self, id: u32) -> (p: Option<Player>)
        requires
            old(self).filed(),
        ensures
            final(self).filed(),
            p == old(self).lookup(id),
            final(self).next() == old(self).next(),
            final(self).members() == (if old(self).slot(id) >= 0 {
                old(self).members().remove(old(self).slot(id))
            } else {
                old(self).members()
            }),
            final(self).keys() == (if old(self).slot(id) >= 0 {
                old(self).keys().remove(old(self).slot(id))
            } else {
                old(self).keys()
            }),
            old(self).wf() ==> final(self).wf(),
            old(self).wf() ==> old(self).slot(id) == first_with_id(old(self).members(), id),
            old(self).fresh() ==> final(self).fresh(),
    {
        proof {
            if self.wf() {
                self.lemma_slot_by_id(id);
            }
        }
        match self.find(id) {
            Some(i) => {
                let ghost k0 = self.keys();
                let ghost s0 = self.members();
                let p = self.players.remove(i);
                self.keys.remove(i);
                proof {
                    assert forall|a: int, b: int| 0 <= a < b < self.keys().len() implies self.keys()[a] != self.keys()[b] by {
                        let a0 = if a < i { a } else { a + 1 };
                        let b0 = if b < i { b } else { b + 1 };
                        assert(self.keys()[a] == k0[a0]);
                        assert(self.keys()[b] == k0[b0]);
                    }
                    if old(self).wf() {
                        assert forall|j: int| 0 <= j < self.keys().len() implies #[trigger] self.keys()[j] == self.members()[j].id by {
                            let j0 = if j < i { j } else { j + 1 };
                            assert(self.keys()[j] == k0[j0]);
                            assert(self.members()[j] == s0[j0]);
                        }
                        self.lemma_wf_from_ids();
                    }
                    if old(self).fresh() {
                        assert forall|j: int| 0 <= j < self.keys().len() implies #[trigger] self.keys()[j] < self.next() by {
                            let j0 = if j < i { j } else { j + 1 };
                            assert(self.keys()[j] == k0[j0]);
                        }
                    }
                }
                Some(p)
            },
            None => None,
        }
    }

    /// The players, in order of arrival.
    pub fn iter(&self) -> (ps: &[Player])
        ensures
            ps@ == self.members(),
    {
        self.players.as_slice()
    }

    pub fn count_on_team(&self, team: &str) -> (n: usize)
        ensures
            n == team_count(self.members(), team@),
    {
        let mut n: usize = 0;
        let mut i: usize = 0;
        while i < self.players.len()
            invariant
                i <= self.players@.len(),
                n == team_count(self.players@.subrange(0, i as int), team@),
                n <= i,
            decreases self.players@.len() - i,
        {
            assert(self.players@.subrange(0, i + 1).drop_last() =~= self.players@.subrange(0, i as int));
            if str_eq(self.players[i].team.as_str(), team) {
                n = n + 1;
            }
            i = i + 1;
        }
        assert(self.players@.subrange(0, i as int) =~= self.players@);
        n
    }

    /// Earliest command completion deadline among busy players (for poll timeout).
    pub fn next_busy_deadline(&self) -> (d: Option<Instant>)
        ensures
            d == earliest_deadline(None, self.members()),
    {
        let mut best: Option<Instant> = None;
        let mut i: usize = 0;
        assert(self.members().skip(0) =~= self.members());
        while i < self.players.len()
            invariant
                i <= self.players@.len(),
                earliest_deadline(None, self.members()) == earliest_deadline(best, self.members().skip(i as int)),
            decreases self.players@.len() - i,
        {
            let ghost rest = self.members().skip(i as int);
            assert(rest.drop_first() =~= self.members().skip(i + 1));
            match self.players[i].queue.busy_until() {
                Some(u) => {
                    match best {
                        Some(b) => {
                            if instant_lt(u, b) {
                                best = Some(u);
                            }
                        },
                        None => {
                            best = Some(u);
                        },
                    }
                },
                None => {},
            }
            i = i + 1;
        }
        assert(self.members().skip(i as int).len() == 0);
        best
    }
}

/// Whether `p` is the player [`Player::spawn`] builds for `id` and `team` on
/// `world` from generator state `s`.
pub open spec fn fresh_spawn(p: Player, id: u32, team: Seq<char>, world: World, s: u64) -> bool {
    let d = spawn_draw(s, world.w() as u32, world.h() as u32);
    &&& p.id == id
    &&& p.team@ == team
    &&& p.x == d.0
    &&& p.y == d.1
    &&& p.orient == d.2
    &&& p.x < world.w()
    &&& p.y < world.h()
    &&& p.level == STARTING_LEVEL
    &&& p.inventory == Inventory::starting_spec()
    &&& !p.in_ritual
    &&& p.queue.wf()
    &&& p.queue.pending().len() == 0
}

/// Number of players of `s` on team `team`.
pub open spec fn team_count(s: Seq<Player>, team: Seq<char>) -> nat
    decreases s.len(),
{
    if s.len() == 0 {
        0
    } else {
        team_count(s.drop_last(), team) + if s.last().team@ == team {
            1nat
        } else {
            0nat
        }
    }
}

/// Earliest deadline among the players of `s`, starting from `best` and
/// replacing it whenever a strictly earlier deadline comes along.
pub open spec fn earliest_deadline(best: Option<Instant>, s: Seq<Player>) -> Option<Instant>
    decreases s.len(),
{
    if s.len() == 0 {
        best
    } else {
        let next = match s[0].queue.deadline() {
            Some(u) => match best {
                Some(b) => if instant_earlier(u, b) {
                    Some(u)
                } else {
                    Some(b)
                },
                None => Some(u),
            },
            None => best,
        };
        earliest_deadline(next, s.drop_first())
    }
}

} // verus!
