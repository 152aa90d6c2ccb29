//! Toroidal world grid and resource generation.
//!
//! The map is obstacle-free plains. Coordinates wrap on every edge
//! ([`World::wrap_x`] / [`World::wrap_y`]) so leaving the right side re-enters
//! on the left.
//!
//! # Resource generation rules
//!
//! Hard constraints, kept by every operation on a tile:
//! 1. At most **one food** per tile.
//! 2. At most **one** stone of each type per tile.
//! 3. At most **three** distinct stone types on one tile.
//!
//! Density targets (percent of tiles, applied independently per resource, then
//! clipped by the hard constraints above): food 50, jade 30, peridot 25,
//! amber 20, amethyst 15, garnet 10, ammolite 5.
//!
//! Placement: for each resource, `target = round(density * tiles)` (halves
//! round up), shuffle the tile indices with the seeded RNG, and place on the
//! first eligible tiles until `target` placements succeeded.
//!
//! Respawn: [`World::respawn_tick`] refills each resource toward the same
//! targets, trying `ceil(15% of the missing count)` placements (at least one
//! when anything is missing, at most the missing count).

use std::time::{Duration, SystemTime, UNIX_EPOCH};

use vstd::array::spec_array_update;
use vstd::prelude::*;

verus! {

broadcast use vstd::array::group_array_axioms;

/// Time units between respawn refill passes.
pub const RESPAWN_PERIOD_TU: u32 = 20;

/// Percent of the missing count toward density tried on each respawn.
pub const RESPAWN_RATE_PERCENT: u64 = 15;

/// Initial / target food density, in percent of the tiles.
pub const FOOD_DENSITY_PERCENT: u64 = 50;

/// Maximum distinct stone types allowed on one tile.
pub const MAX_STONE_TYPES_PER_TILE: usize = 3;

/// The six stone types.
#[derive(Debug, Clone, Copy, PartialEq, Eq, Hash)]
pub enum StoneKind {
    Jade,
    Peridot,
    Amber,
    Amethyst,
    Garnet,
    Ammolite,
}

/// Density per stone kind in percent, by position in [`StoneKind::ALL`].
pub open spec fn stone_density_percent(i: int) -> nat {
    if i == 0 {
        30
    } else if i == 1 {
        25
    } else if i == 2 {
        20
    } else if i == 3 {
        15
    } else if i == 4 {
        10
    } else {
        5
    }
}

/// Density of the stone at position `i` of [`StoneKind::ALL`], in percent.
pub fn stone_density(i: usize) -> (p: u64)
    requires
        i < 6,
    ensures
        p == stone_density_percent(i as int),
{
    if i == 0 {
        30
    } else if i == 1 {
        25
    } else if i == 2 {
        20
    } else if i == 3 {
        15
    } else if i == 4 {
        10
    } else {
        5
    }
}

impl StoneKind {
    pub const ALL: [StoneKind; 6] = [
        StoneKind::Jade,
        StoneKind::Peridot,
        StoneKind::Amber,
        StoneKind::Amethyst,
        StoneKind::Garnet,
        StoneKind::Ammolite,
    ];

    /// Position of this kind in [`StoneKind::ALL`].
    pub open spec fn idx(self) -> int {
        match self {
            StoneKind::Jade => 0,
            StoneKind::Peridot => 1,
            StoneKind::Amber => 2,
            StoneKind::Amethyst => 3,
            StoneKind::Garnet => 4,
            StoneKind::Ammolite => 5,
        }
    }

    /// The kind at position `i` of [`StoneKind::ALL`] (`0 <= i < 6`).
    pub open spec fn at(i: int) -> StoneKind {
        if i == 0 {
            StoneKind::Jade
        } else if i == 1 {
            StoneKind::Peridot
        } else if i == 2 {
            StoneKind::Amber
        } else if i == 3 {
            StoneKind::Amethyst
        } else if i == 4 {
            StoneKind::Garnet
        } else {
            StoneKind::Ammolite
        }
    }

    /// Subject name of this kind.
    pub open spec fn name(self) -> Seq<char> {
        match self {
            StoneKind::Jade => "jade"@,
            StoneKind::Peridot => "peridot"@,
            StoneKind::Amber => "amber"@,
            StoneKind::Amethyst => "amethyst"@,
            StoneKind::Garnet => "garnet"@,
            StoneKind::Ammolite => "ammolite"@,
        }
    }

    /// The kind whose subject name is `s`, trying names in [`StoneKind::ALL`] order.
    pub open spec fn named(s: Seq<char>) -> Option<StoneKind> {
        if s == StoneKind::Jade.name() {
            Some(StoneKind::Jade)
        } else if s == StoneKind::Peridot.name() {
            Some(StoneKind::Peridot)
        } else if s == StoneKind::Amber.name() {
            Some(StoneKind::Amber)
        } else if s == StoneKind::Amethyst.name() {
            Some(StoneKind::Amethyst)
        } else if s == StoneKind::Garnet.name() {
            Some(StoneKind::Garnet)
        } else if s == StoneKind::Ammolite.name() {
            Some(StoneKind::Ammolite)
        } else {
            None
        }
    }

    /// Position of this kind in [`StoneKind::ALL`].
    pub fn index(self) -> (i: usize)
        ensures
            i == self.idx(),
            i < 6,
    {
        match self {
            StoneKind::Jade => 0,
            StoneKind::Peridot => 1,
            StoneKind::Amber => 2,
            StoneKind::Amethyst => 3,
            StoneKind::Garnet => 4,
            StoneKind::Ammolite => 5,
        }
    }

    pub fn as_str(self) -> (s: &'static str)
        ensures
            s@ == self.name(),
    {
        match self {
            StoneKind::Jade => "jade",
            StoneKind::Peridot => "peridot",
            StoneKind::Amber => "amber",
            StoneKind::Amethyst => "amethyst",
            StoneKind::Garnet => "garnet",
            StoneKind::Ammolite => "ammolite",
        }
    }

    pub fn from_index(i: usize) -> (k: Option<StoneKind>)
        ensures
            k == (if i < 6 { Some(StoneKind::at(i as int)) } else { None::<StoneKind> }),
    {
        if i == 0 {
            Some(StoneKind::Jade)
        } else if i == 1 {
            Some(StoneKind::Peridot)
        } else if i == 2 {
            Some(StoneKind::Amber)
        } else if i == 3 {
            Some(StoneKind::Amethyst)
        } else if i == 4 {
            Some(StoneKind::Garnet)
        } else if i == 5 {
            Some(StoneKind::Ammolite)
        } else {
            None
        }
    }

    /// Parse a subject stone name (`jade`, …).
    pub fn parse(name: &str) -> (k: Option<StoneKind>)
        ensures
            k == StoneKind::named(name@),
    {
        if crate::text::str_eq(name, "jade") {
            Some(StoneKind::Jade)
        } else if crate::text::str_eq(name, "peridot") {
            Some(StoneKind::Peridot)
        } else if crate::text::str_eq(name, "amber") {
            Some(StoneKind::Amber)
        } else if crate::text::str_eq(name, "amethyst") {
            Some(StoneKind::Amethyst)
        } else if crate::text::str_eq(name, "garnet") {
            Some(StoneKind::Garnet)
        } else if crate::text::str_eq(name, "ammolite") {
            Some(StoneKind::Ammolite)
        } else {
            None
        }
    }
}

/// Each kind sits at its own position of [`StoneKind::ALL`].
pub proof fn lemma_stone_index_roundtrip(k: StoneKind, i: int)
    ensures
        StoneKind::at(k.idx()) == k,
        0 <= i < 6 ==> StoneKind::at(i).idx() == i,
        0 <= k.idx() < 6,
{
}

/// Number of `true` entries of `s`.
pub open spec fn count_true(s: Seq<bool>) -> nat
    decreases s.len(),
{
    if s.len() == 0 {
        0
    } else {
        count_true(s.drop_last()) + if s.last() {
            1nat
        } else {
            0nat
        }
    }
}

proof fn lemma_count_true_update(s: Seq<bool>, i: int, b: bool)
    requires
        0 <= i < s.len(),
    ensures
        count_true(s.update(i, b)) == count_true(s) - (if s[i] {
            1int
        } else {
            0int
        }) + (if b {
            1int
        } else {
            0int
        }),
    decreases s.len(),
{
    if i == s.len() - 1 {
        assert(s.update(i, b).drop_last() =~= s.drop_last());
    } else {
        lemma_count_true_update(s.drop_last(), i, b);
        assert(s.update(i, b).drop_last() =~= s.drop_last().update(i, b));
    }
}

proof fn lemma_count_true_bound(s: Seq<bool>)
    ensures
        count_true(s) <= s.len(),
    decreases s.len(),
{
    if s.len() > 0 {
        lemma_count_true_bound(s.drop_last());
    }
}

/// One map square: plains tile with optional food and up to three stone kinds.
#[derive(Debug, Clone, Copy, PartialEq, Eq)]
pub struct Tile {
    /// `true` when this tile holds the single allowed food unit.
    pub food: bool,
    /// Presence of each stone kind (at most one of each; at most three kinds).
    stones: [bool; 6],
}

impl Tile {
    /// Whether the tile holds its food unit.
    pub closed spec fn has_food(self) -> bool {
        self.food
    }

    /// Whether the tile holds a stone of `kind`.
    pub closed spec fn holds(self, kind: StoneKind) -> bool {
        self.stones@[kind.idx()]
    }

    /// Number of distinct stone kinds on the tile.
    pub closed spec fn kinds(self) -> nat {
        count_true(self.stones@)
    }

    /// The tile with the presence of `kind` set to `present`, food unchanged.
    pub closed spec fn with_stone(self, kind: StoneKind, present: bool) -> Tile {
        Tile { food: self.food, stones: spec_array_update(self.stones, kind.idx(), present) }
    }

    /// The tile with food set to `food`, stones unchanged.
    pub closed spec fn with_food(self, food: bool) -> Tile {
        Tile { food, ..self }
    }

    /// The plains tile with nothing on it.
    pub closed spec fn bare() -> Tile {
        Tile { food: false, stones: [false, false, false, false, false, false] }
    }

    /// The hard per-tile rule: at most three distinct stone kinds.
    pub open spec fn within_rules(self) -> bool {
        self.kinds() <= 3
    }

    /// What [`Tile::with_stone`] and [`Tile::bare`] give.
    pub proof fn lemma_tile_updates(self, kind: StoneKind, present: bool, other: StoneKind)
        ensures
            self.with_stone(kind, present).holds(kind) == present,
            other != kind ==> self.with_stone(kind, present).holds(other) == self.holds(other),
            self.with_stone(kind, present).has_food() == self.has_food(),
            self.with_stone(kind, present).kinds() == self.kinds() - (if self.holds(kind) {
                1int
            } else {
                0int
            }) + (if present {
                1int
            } else {
                0int
            }),
            self.kinds() <= 6,
            !Tile::bare().has_food(),
            !Tile::bare().holds(other),
            Tile::bare().kinds() == 0,
            self.with_stone(kind, self.holds(kind)) == self,
            self.with_food(present).has_food() == present,
            self.with_food(present).holds(other) == self.holds(other),
            self.with_food(present).kinds() == self.kinds(),
            self.with_food(self.has_food()) == self,
            self.with_food(present).with_stone(kind, true) == self.with_stone(kind, true).with_food(present),
            forall|b: bool| #[trigger] self.with_food(present).with_food(b) == self.with_food(b),
            forall|b: bool| #[trigger] self.with_stone(kind, present).with_stone(kind, b) == self.with_stone(kind, b),
    {
        assert forall|b: bool| #[trigger] self.with_stone(kind, present).with_stone(kind, b) == self.with_stone(kind, b) by {
            assert(spec_array_update(spec_array_update(self.stones, kind.idx(), present), kind.idx(), b) =~= spec_array_update(self.stones, kind.idx(), b));
        }
        let s2 = spec_array_update(self.stones, kind.idx(), present);
        assert(s2@ =~= self.stones@.update(kind.idx(), present));
        lemma_count_true_update(self.stones@, kind.idx(), present);
        lemma_count_true_bound(self.stones@);
        assert(other != kind ==> other.idx() != kind.idx());
        let b = [false, false, false, false, false, false];
        assert(b@ =~= seq![false, false, false, false, false, false]);
        assert(count_true(b@) == 0) by {
            reveal_with_fuel(count_true, 7);
        }
        assert(spec_array_update(self.stones, kind.idx(), self.stones@[kind.idx()]) =~= self.stones);
    }

    pub fn stone_count(&self) -> (n: usize)
        ensures
            n == self.kinds(),
    {
        let mut n: usize = 0;
        let mut i: usize = 0;
        while i < 6
            invariant
                i <= 6,
                n == count_true(self.stones@.subrange(0, i as int)),
                n <= i,
            decreases 6 - i,
        {
            assert(self.stones@.subrange(0, i + 1).drop_last() =~= self.stones@.subrange(0, i as int));
            if self.stones[i] {
                n = n + 1;
            }
            i = i + 1;
        }
        assert(self.stones@.subrange(0, 6) =~= self.stones@);
        n
    }

    /// Whether the tile holds its food unit.
    pub fn food(&self) -> (b: bool)
        ensures
            b == self.has_food(),
    {
        self.food
    }

    pub fn has_stone(&self, kind: StoneKind) -> (b: bool)
        ensures
            b == self.holds(kind),
    {
        self.stones[kind.index()]
    }

    /// Kinds present on the tile, in [`StoneKind::ALL`] order.
    pub fn stones(&self) -> (v: Vec<StoneKind>)
        ensures
            forall|k: StoneKind| #[trigger] v@.contains(k) <==> self.holds(k),
            forall|i: int, j: int| 0 <= i < j < v@.len() ==> v@[i].idx() < v@[j].idx(),
    {
        let mut v: Vec<StoneKind> = Vec::new();
        let mut i: usize = 0;
        while i < 6
            invariant
                i <= 6,
                forall|k: StoneKind| #[trigger] v@.contains(k) <==> (self.holds(k) && k.idx() < i),
                forall|a: int, b: int| 0 <= a < b < v@.len() ==> v@[a].idx() < v@[b].idx(),
                forall|a: int| 0 <= a < v@.len() ==> v@[a].idx() < i,
            decreases 6 - i,
        {
            let k = StoneKind::from_index(i).unwrap();
            proof {
                lemma_stone_index_roundtrip(k, i as int);
            }
            let ghost old_v = v@;
            if self.stones[i] {
                v.push(k);
                assert forall|kk: StoneKind| #[trigger] v@.contains(kk) <==> (self.holds(kk) && kk.idx() < i + 1) by {
                    if v@.contains(kk) {
                        let w = choose|w: int| 0 <= w < v@.len() && v@[w] == kk;
                        if w < old_v.len() {
                            assert(old_v[w] == kk);
                            assert(old_v.contains(kk));
                        }
                    }
                    if self.holds(kk) && kk.idx() < i + 1 {
                        if kk == k {
                            assert(v@[v@.len() - 1] == k);
                        } else {
                            assert(kk.idx() != i);
                            assert(old_v.contains(kk));
                            let w = choose|w: int| 0 <= w < old_v.len() && old_v[w] == kk;
                            assert(v@[w] == kk);
                        }
                    }
                }
            } else {
                assert forall|kk: StoneKind| #[trigger] v@.contains(kk) <==> (self.holds(kk) && kk.idx() < i + 1) by {
                    if kk.idx() == i {
                        lemma_stone_index_roundtrip(kk, i as int);
                    }
                }
            }
            i = i + 1;
        }
        v
    }

    /// Try to place food. Returns `false` if food is already present.
    pub fn try_add_food(&mut self) -> (placed: bool)
        ensures
            placed == !old(self).has_food(),
            *final(self) == old(self).with_food(true),
    {
        if self.food {
            return false;
        }
        self.food = true;
        true
    }

    /// Try to place a stone kind. Honors one-per-type and max-three-kinds.
    pub fn try_add_stone(&mut self, kind: StoneKind) -> (placed: bool)
        ensures
            placed == (!old(self).holds(kind) && old(self).kinds() < 3),
            *final(self) == (if placed {
                old(self).with_stone(kind, true)
            } else {
                *old(self)
            }),
    {
        let i = kind.index();
        if self.stones[i] {
            return false;
        }
        if self.stone_count() >= MAX_STONE_TYPES_PER_TILE {
            return false;
        }
        self.stones[i] = true;
        proof {
            assert(self.stones =~= spec_array_update(old(self).stones, kind.idx(), true));
        }
        true
    }

    pub fn take_food(&mut self) -> (taken: bool)
        ensures
            taken == old(self).has_food(),
            *final(self) == old(self).with_food(false),
    {
        if self.food {
            self.food = false;
            true
        } else {
            false
        }
    }

    pub fn take_stone(&mut self, kind: StoneKind) -> (taken: bool)
        ensures
            taken == old(self).holds(kind),
            *final(self) == old(self).with_stone(kind, false),
    {
        let i = kind.index();
        if self.stones[i] {
            self.stones[i] = false;
            proof {
                assert(self.stones =~= spec_array_update(old(self).stones, kind.idx(), false));
            }
            true
        } else {
            proof {
                assert(spec_array_update(self.stones, kind.idx(), false) =~= self.stones);
            }
            false
        }
    }
}

impl Default for Tile {
    fn default() -> (t: Tile)
        ensures
            t == Tile::bare(),
    {
        Tile { food: false, stones: [false, false, false, false, false, false] }
    }
}


/// A tile stays within the rules whatever is done to it: the empty tile is,
/// adding a stone where [`Tile::try_add_stone`] accepts it (never a fourth
/// kind), taking a stone and setting food all keep it so. As tiles are made
/// only empty and changed only by these, no tile ever holds more than three
/// kinds.
pub proof fn law_tile_stays_within_rules(t: Tile, kind: StoneKind, food: bool)
    requires
        t.within_rules(),
    ensures
        Tile::bare().within_rules(),
        stone_fits(t, kind) ==> t.with_stone(kind, true).within_rules()
            && t.with_stone(kind, true).kinds() == t.kinds() + 1,
        t.with_stone(kind, false).within_rules(),
        t.with_food(food).within_rules(),
        t.kinds() <= 3,
{
    t.lemma_tile_updates(kind, true, kind);
    t.lemma_tile_updates(kind, false, kind);
    t.lemma_tile_updates(kind, food, kind);
}

/// `<[T]>::swap`: exchanges the elements at positions `a` and `b`.
#[verifier::external_body]
fn slice_swap<T>(slice: &mut [T], a: usize, b: usize)
    requires
        a < old(slice)@.len(),
        b < old(slice)@.len(),
    ensures
        final(slice)@ == old(slice)@.update(a as int, old(slice)@[b as int]).update(
            b as int,
            old(slice)@[a as int],
        ),
{
    slice.swap(a, b)
}

/// One xorshift64 step.
pub open spec fn xorshift(x: u64) -> u64 {
    let a = x ^ (x << 13u64);
    let b = a ^ (a >> 7u64);
    b ^ (b << 17u64)
}

/// State a generator starts from for `seed` (zero is replaced, being a fixed point).
pub open spec fn seed_state(seed: u64) -> u64 {
    if seed == 0 {
        0xDEAD_BEEF_CAFE_BABEu64
    } else {
        seed
    }
}

/// Index drawn from `0..len` by a generator whose state is `state`.
pub open spec fn draw_index(state: u64, len: usize) -> usize {
    ((xorshift(state) as usize) % len) as usize
}

/// `s` with the elements at `a` and `b` exchanged.
pub open spec fn swapped<T>(s: Seq<T>, a: int, b: int) -> Seq<T> {
    s.update(a, s[b]).update(b, s[a])
}

/// Fisher–Yates from position `i` down to 1, starting from generator state
/// `state`: the final state and the permuted sequence.
pub open spec fn shuffled<T>(state: u64, s: Seq<T>, i: int) -> (u64, Seq<T>)
    decreases i,
{
    if i < 1 {
        (state, s)
    } else {
        let j = draw_index(state, (i + 1) as usize);
        shuffled(xorshift(state), swapped(s, i, j as int), i - 1)
    }
}

/// Every element of `s` is below `n`.
pub open spec fn all_below(s: Seq<usize>, n: int) -> bool {
    forall|k: int| 0 <= k < s.len() ==> #[trigger] s[k] < n
}

/// What `swapped(s, a, b)` holds at position `k`.
proof fn lemma_swapped_at<T>(s: Seq<T>, a: int, b: int, k: int)
    requires
        0 <= a < s.len(),
        0 <= b < s.len(),
        0 <= k < s.len(),
    ensures
        swapped(s, a, b).len() == s.len(),
        swapped(s, a, b)[k] == (if k == b {
            s[a]
        } else if k == a {
            s[b]
        } else {
            s[k]
        }),
{
}

/// Shuffling keeps the length and keeps every element below a bound.
pub proof fn lemma_shuffled_bounded(state: u64, s: Seq<usize>, i: int, n: int)
    requires
        all_below(s, n),
        i < s.len(),
    ensures
        all_below(shuffled(state, s, i).1, n),
        shuffled(state, s, i).1.len() == s.len(),
    decreases i,
{
    if i >= 1 {
        let j = draw_index(state, (i + 1) as usize);
        assert(j < i + 1);
        let s2 = swapped(s, i, j as int);
        assert forall|k: int| 0 <= k < s2.len() implies #[trigger] s2[k] < n by {
            lemma_swapped_at(s, i, j as int, k);
        }
        lemma_shuffled_bounded(xorshift(state), s2, i - 1, n);
    }
}

/// Exchanging two elements keeps the elements.
proof fn lemma_swapped_multiset<T>(s: Seq<T>, a: int, b: int)
    requires
        0 <= a < s.len(),
        0 <= b < s.len(),
    ensures
        swapped(s, a, b).to_multiset() == s.to_multiset(),
        swapped(s, a, b).len() == s.len(),
{
    broadcast use vstd::seq_lib::to_multiset_update;
    broadcast use vstd::multiset::group_multiset_axioms;
    let s1 = s.update(a, s[b]);
    assert(s1[b] == s[b]);
    assert(s1.to_multiset() == s.to_multiset().insert(s[b]).remove(s[a]));
    assert(swapped(s, a, b).to_multiset() == s1.to_multiset().insert(s[a]).remove(s[b]));
    let m = s.to_multiset();
    assert(m.count(s[a]) > 0) by {
        broadcast use vstd::seq_lib::group_to_multiset_ensures;

        assert(s.contains(s[a]));
    }
    assert forall|v: T| #[trigger] swapped(s, a, b).to_multiset().count(v) == m.count(v) by {
        let m1 = m.insert(s[b]).remove(s[a]);
        assert(m1.count(s[a]) + 1 == m.insert(s[b]).count(s[a]));
    }
    assert(swapped(s, a, b).to_multiset() =~= s.to_multiset());
}

/// Shuffling rearranges the elements: it keeps each as often as it was.
pub proof fn law_shuffled_permutes<T>(state: u64, s: Seq<T>, i: int)
    requires
        i < s.len(),
    ensures
        shuffled(state, s, i).1.to_multiset() == s.to_multiset(),
        shuffled(state, s, i).1.len() == s.len(),
    decreases i,
{
    if i >= 1 {
        let j = draw_index(state, (i + 1) as usize);
        assert(j < i + 1);
        lemma_swapped_multiset(s, i, j as int);
        law_shuffled_permutes(xorshift(state), swapped(s, i, j as int), i - 1);
    }
}

/// Tiny xorshift64 RNG so generation is seedable without an extra crate.
#[derive(Debug, Clone)]
pub struct SeededRng {
    state: u64,
}

impl SeededRng {
    /// Current generator state.
    pub closed spec fn state_of(self) -> u64 {
        self.state
    }

    pub fn new(seed: u64) -> (r: SeededRng)
        ensures
            r.state_of() == seed_state(seed),
    {
        SeededRng {
            state: if seed == 0 {
                0xDEAD_BEEF_CAFE_BABE
            } else {
                seed
            },
        }
    }

    /// A generator seeded from the system clock.
    pub fn from_entropy() -> (r: SeededRng)
        ensures
            r.state_of() != 0,
            exists|t: SystemTime| r.state_of() == seed_state(#[trigger] nanos_reading(t) ^ 0xA5A5_5A5A_C3C3_3C3Cu64),
    {
        let nanos = clock_nanos();
        Self::new(nanos ^ 0xA5A5_5A5A_C3C3_3C3C)
    }

    fn next_u64(&mut self) -> (x: u64)
        ensures
            x == xorshift(old(self).state_of()),
            final(self).state_of() == x,
    {
        let mut x = self.state;
        x = x ^ (x << 13u64);
        x = x ^ (x >> 7u64);
        x = x ^ (x << 17u64);
        self.state = x;
        x
    }

    /// Uniform index in `0..len` (`len` must be > 0).
    pub fn gen_index(&mut self, len: usize) -> (i: usize)
        requires
            len > 0,
        ensures
            i == draw_index(old(self).state_of(), len),
            i < len,
            final(self).state_of() == xorshift(old(self).state_of()),
    {
        let x = self.next_u64();
        (x as usize) % len
    }

    /// Fisher–Yates shuffle.
    pub fn shuffle<T>(&mut self, slice: &mut [T])
        ensures
            (final(self).state_of(), final(slice)@) == shuffled(
                old(self).state_of(),
                old(slice)@,
                old(slice)@.len() - 1,
            ),
            final(slice)@.to_multiset() == old(slice)@.to_multiset(),
    {
        proof {
            law_shuffled_permutes(self.state_of(), slice@, slice@.len() - 1);
        }
        let n = slice.len();
        let mut i: usize = n;
        while i > 1
            invariant
                i <= n,
                slice@.len() == n,
                shuffled(old(self).state_of(), old(slice)@, n - 1) == shuffled(
                    self.state_of(),
                    slice@,
                    i - 1,
                ),
            decreases i,
        {
            i = i - 1;
            let j = self.gen_index(i + 1);
            slice_swap(slice, i, j);
        }
    }
}

/// `std::time::SystemTime`, carried as an opaque value.
#[verifier::external_type_specification]
#[verifier::external_body]
pub struct ExSystemTime(SystemTime);

/// `SystemTime::now`: the current time of the system clock. Nothing is
/// stated of it, as it depends on when the call is made.
#[verifier::external_body]
fn system_now() -> SystemTime {
    SystemTime::now()
}

/// What `t.duration_since(UNIX_EPOCH)` gives, `None` for an error.
pub uninterp spec fn elapsed_since_epoch(t: SystemTime) -> Option<Duration>;

/// `SystemTime::duration_since(UNIX_EPOCH)`: the time elapsed from the Unix
/// epoch to `t`, or `None` when `t` lies before it.
#[verifier::external_body]
fn since_epoch(t: SystemTime) -> (r: Option<Duration>)
    ensures
        r == elapsed_since_epoch(t),
{
    t.duration_since(UNIX_EPOCH).ok()
}

/// What `Duration::as_nanos` gives for `d`.
pub uninterp spec fn whole_nanos(d: Duration) -> u128;

/// `Duration::as_nanos`: the whole nanoseconds in `d`.
#[verifier::external_body]
fn duration_nanos(d: Duration) -> (n: u128)
    ensures
        n == whole_nanos(d),
{
    d.as_nanos()
}

/// The nanoseconds from the Unix epoch to `t`, truncated to 64 bits, or 1
/// when `t` lies before the epoch.
pub open spec fn nanos_reading(t: SystemTime) -> u64 {
    match elapsed_since_epoch(t) {
        Some(d) => whole_nanos(d) as u64,
        None => 1,
    }
}

/// Nanoseconds since the Unix epoch truncated to 64 bits, or 1 when the
/// clock reads before the epoch.
fn clock_nanos() -> (n: u64)
    ensures
        exists|t: SystemTime| n == #[trigger] nanos_reading(t),
{
    let now = system_now();
    let n = match since_epoch(now) {
        Some(d) => duration_nanos(d) as u64,
        None => 1,
    };
    assert(n == nanos_reading(now));
    n
}

/// `round(pct% of n)` with halves rounded up, capped at `n`.
pub open spec fn target_count(pct: nat, n: nat) -> nat {
    let t = (pct * n + 50) / 100;
    if t > n {
        n
    } else {
        t
    }
}

/// How many placements a respawn pass tries when `missing` units are missing:
/// `ceil(15% of missing)`, at least one, at most `missing`.
pub open spec fn respawn_attempts(missing: nat) -> nat {
    let a: nat = ((RESPAWN_RATE_PERCENT as nat) * missing + 99) / 100;
    let a1: nat = if a < 1 {
        1
    } else {
        a
    };
    if a1 > missing {
        missing
    } else {
        a1
    }
}

/// Number of tiles holding food.
pub open spec fn food_count(tiles: Seq<Tile>) -> nat
    decreases tiles.len(),
{
    if tiles.len() == 0 {
        0
    } else {
        food_count(tiles.drop_last()) + if tiles.last().has_food() {
            1nat
        } else {
            0nat
        }
    }
}

/// Number of tiles holding a stone of `kind`.
pub open spec fn stone_tally(tiles: Seq<Tile>, kind: StoneKind) -> nat
    decreases tiles.len(),
{
    if tiles.len() == 0 {
        0
    } else {
        stone_tally(tiles.drop_last(), kind) + if tiles.last().holds(kind) {
            1nat
        } else {
            0nat
        }
    }
}

/// Whether a stone of `kind` may be added to `t`.
pub open spec fn stone_fits(t: Tile, kind: StoneKind) -> bool {
    !t.holds(kind) && t.kinds() < 3
}

/// Place food on the first `target` food-free tiles met along `order`.
pub open spec fn fill_food(tiles: Seq<Tile>, order: Seq<usize>, target: nat) -> Seq<Tile>
    decreases order.len(),
{
    if order.len() == 0 || target == 0 {
        tiles
    } else {
        let i = order[0] as int;
        if 0 <= i < tiles.len() && !tiles[i].has_food() {
            fill_food(tiles.update(i, tiles[i].with_food(true)), order.drop_first(), (target - 1) as nat)
        } else {
            fill_food(tiles, order.drop_first(), target)
        }
    }
}

/// Place a stone of `kind` on the first `target` tiles met along `order`
/// where it fits.
pub open spec fn fill_stone(tiles: Seq<Tile>, kind: StoneKind, order: Seq<usize>, target: nat) -> Seq<Tile>
    decreases order.len(),
{
    if order.len() == 0 || target == 0 {
        tiles
    } else {
        let i = order[0] as int;
        if 0 <= i < tiles.len() && stone_fits(tiles[i], kind) {
            fill_stone(
                tiles.update(i, tiles[i].with_stone(kind, true)),
                kind,
                order.drop_first(),
                (target - 1) as nat,
            )
        } else {
            fill_stone(tiles, kind, order.drop_first(), target)
        }
    }
}

/// The tile indices `0..n` in order.
pub open spec fn identity_order(n: nat) -> Seq<usize> {
    Seq::new(n, |i: int| i as usize)
}

/// One food placement pass: shuffle the tile order, then fill. Gives the new
/// tiles and the new generator state.
pub open spec fn food_pass(tiles: Seq<Tile>, state: u64, target: nat) -> (Seq<Tile>, u64) {
    let sh = shuffled(state, identity_order(tiles.len()), tiles.len() - 1);
    (fill_food(tiles, sh.1, target), sh.0)
}

/// One stone placement pass for `kind`.
pub open spec fn stone_pass(tiles: Seq<Tile>, state: u64, kind: StoneKind, target: nat) -> (
    Seq<Tile>,
    u64,
) {
    let sh = shuffled(state, identity_order(tiles.len()), tiles.len() - 1);
    (fill_stone(tiles, kind, sh.1, target), sh.0)
}

/// Initial stone passes for the kinds at positions `k..6`.
pub open spec fn initial_stone_passes(tiles: Seq<Tile>, state: u64, k: nat) -> (Seq<Tile>, u64)
    decreases 6 - k,
{
    if k >= 6 {
        (tiles, state)
    } else {
        let p = stone_pass(
            tiles,
            state,
            StoneKind::at(k as int),
            target_count(stone_density_percent(k as int), tiles.len()),
        );
        initial_stone_passes(p.0, p.1, k + 1)
    }
}

/// Initial population: food, then each stone kind in [`StoneKind::ALL`] order.
pub open spec fn populated(tiles: Seq<Tile>, state: u64) -> (Seq<Tile>, u64) {
    let f = food_pass(tiles, state, target_count(FOOD_DENSITY_PERCENT as nat, tiles.len()));
    initial_stone_passes(f.0, f.1, 0)
}

/// The empty map of `n` tiles.
pub open spec fn bare_tiles(n: nat) -> Seq<Tile> {
    Seq::new(n, |i: int| Tile::bare())
}

/// Tiles of the world that [`World::generate`] builds.
pub open spec fn generated_tiles(width: u32, height: u32, seed: u64) -> Seq<Tile> {
    populated(bare_tiles((width * height) as nat), seed_state(seed)).0
}

/// Respawn of food: a pass toward the target when food is missing.
pub open spec fn respawn_food(tiles: Seq<Tile>, state: u64) -> (Seq<Tile>, u64) {
    let target = target_count(FOOD_DENSITY_PERCENT as nat, tiles.len());
    let have = food_count(tiles);
    if have < target {
        food_pass(tiles, state, respawn_attempts((target - have) as nat))
    } else {
        (tiles, state)
    }
}

/// Respawn of the stone kinds at positions `k..6`.
pub open spec fn respawn_stones(tiles: Seq<Tile>, state: u64, k: nat) -> (Seq<Tile>, u64)
    decreases 6 - k,
{
    if k >= 6 {
        (tiles, state)
    } else {
        let kind = StoneKind::at(k as int);
        let target = target_count(stone_density_percent(k as int), tiles.len());
        let have = stone_tally(tiles, kind);
        let p = if have < target {
            stone_pass(tiles, state, kind, respawn_attempts((target - have) as nat))
        } else {
            (tiles, state)
        };
        respawn_stones(p.0, p.1, k + 1)
    }
}

/// A full respawn refill: food, then each stone kind.
pub open spec fn respawned(tiles: Seq<Tile>, state: u64) -> (Seq<Tile>, u64) {
    let f = respawn_food(tiles, state);
    respawn_stones(f.0, f.1, 0)
}

/// Every tile respects the per-tile rules.
pub open spec fn all_within_rules(tiles: Seq<Tile>) -> bool {
    forall|i: int| 0 <= i < tiles.len() ==> (#[trigger] tiles[i]).within_rules()
}

/// Euclidean remainder of `value` by `dim` (`dim > 0`).
pub open spec fn wrapped(value: int, dim: int) -> int {
    value % dim
}

/// Toroidal resource map.
#[derive(Debug, Clone)]
pub struct World {
    width: u32,
    height: u32,
    tiles: Vec<Tile>,
    /// Seed used for the last full generation (for logs / reproducibility).
    pub seed: u64,
}

impl World {
    pub closed spec fn w(self) -> nat {
        self.width as nat
    }

    pub closed spec fn h(self) -> nat {
        self.height as nat
    }

    /// All tiles, row by row.
    pub closed spec fn cells(self) -> Seq<Tile> {
        self.tiles@
    }

    pub closed spec fn seed_of(self) -> u64 {
        self.seed
    }

    /// Dimensions are positive and there is one tile per square.
    pub closed spec fn wf(self) -> bool {
        &&& self.width > 0
        &&& self.height > 0
        &&& self.tiles@.len() == self.width * self.height
    }

    /// The tile at `(x, y)`.
    pub open spec fn tile_at(self, x: int, y: int) -> Tile {
        self.cells()[y * self.w() + x]
    }

    /// Position of square `(x, y)` in [`World::cells`].
    pub proof fn lemma_cell_index(self, x: int, y: int)
        requires
            self.wf(),
            0 <= x < self.w(),
            0 <= y < self.h(),
        ensures
            0 <= y * self.w() + x < self.cells().len(),
            self.cells().len() == self.w() * self.h(),
            self.w() > 0,
            self.h() > 0,
    {
        let w = self.w() as int;
        let h = self.h() as int;
        assert(y * w + x < w * h) by (nonlinear_arith)
            requires
                0 <= x < w,
                0 <= y < h,
        ;
        assert(0 <= y * w) by (nonlinear_arith)
            requires
                0 <= y,
                0 <= w,
        ;
    }

    /// A well-formed map has positive dimensions.
    pub proof fn lemma_dims(self)
        requires
            self.wf(),
        ensures
            self.w() > 0,
            self.h() > 0,
            self.w() <= u32::MAX,
            self.h() <= u32::MAX,
            self.cells().len() == self.w() * self.h(),
    {
    }

    /// Distinct squares have distinct positions in [`World::cells`].
    pub proof fn lemma_cell_index_injective(self, x1: int, y1: int, x2: int, y2: int)
        requires
            self.wf(),
            0 <= x1 < self.w(),
            0 <= y1 < self.h(),
            0 <= x2 < self.w(),
            0 <= y2 < self.h(),
            y1 * self.w() + x1 == y2 * self.w() + x2,
        ensures
            x1 == x2,
            y1 == y2,
    {
        let w = self.w() as int;
        if y1 < y2 {
            assert(y1 * w + w <= y2 * w) by (nonlinear_arith)
                requires
                    y1 < y2,
                    w > 0,
            ;
        } else if y2 < y1 {
            assert(y2 * w + w <= y1 * w) by (nonlinear_arith)
                requires
                    y2 < y1,
                    w > 0,
            ;
        }
    }

    /// Empty plains map (no resources yet).
    pub fn empty(width: u32, height: u32) -> (world: World)
        requires
            width > 0,
            height > 0,
            width * height <= usize::MAX,
        ensures
            world.wf(),
            world.w() == width,
            world.h() == height,
            world.cells() == bare_tiles((width * height) as nat),
            world.seed_of() == 0,
    {
        let n: usize = (width as usize) * (height as usize);
        let mut tiles: Vec<Tile> = Vec::new();
        let mut i: usize = 0;
        while i < n
            invariant
                i <= n,
                tiles@ == bare_tiles(i as nat),
            decreases n - i,
        {
            tiles.push(Tile::default());
            i = i + 1;
            assert(tiles@ =~= bare_tiles(i as nat));
        }
        World { width, height, tiles, seed: 0 }
    }

    /// Build a world and run initial resource generation with `seed`.
    pub fn generate(width: u32, height: u32, seed: u64) -> (world: World)
        requires
            width > 0,
            height > 0,
            width * height <= usize::MAX,
        ensures
            world.wf(),
            world.w() == width,
            world.h() == height,
            world.cells() == generated_tiles(width, height, seed),
            world.seed_of() == seed,
    {
        let mut world = Self::empty(width, height);
        world.seed = seed;
        let mut rng = SeededRng::new(seed);
        world.populate_initial(&mut rng);
        world
    }

    /// Generate with a seed taken from the system clock.
    pub fn generate_random(width: u32, height: u32) -> (world: World)
        requires
            width > 0,
            height > 0,
            width * height <= usize::MAX,
        ensures
            world.wf(),
            world.w() == width,
            world.h() == height,
            world.cells() == generated_tiles(width, height, world.seed_of()),
            exists|t: SystemTime| world.seed_of() == seed_state(#[trigger] nanos_reading(t) ^ 0xA5A5_5A5A_C3C3_3C3Cu64),
    {
        let rng = SeededRng::from_entropy();
        Self::generate(width, height, rng.state)
    }

    pub fn width(&self) -> (w: u32)
        ensures
            w == self.w(),
    {
        self.width
    }

    pub fn height(&self) -> (h: u32)
        ensures
            h == self.h(),
    {
        self.height
    }

    pub fn tile_count(&self) -> (n: usize)
        ensures
            n == self.cells().len(),
    {
        self.tiles.len()
    }

    /// The tiles, row by row.
    pub fn tiles(&self) -> (t: &[Tile])
        ensures
            t@ == self.cells(),
    {
        self.tiles.as_slice()
    }

    /// The tiles, row by row, for in-place edits (the number of tiles stays fixed).
    pub fn tiles_mut(&mut self) -> (t: &mut [Tile])
        ensures
            t@ == old(self).cells(),
            final(self).cells() == final(t)@,
            final(self).w() == old(self).w(),
            final(self).h() == old(self).h(),
            final(self).seed_of() == old(self).seed_of(),
    {
        self.tiles.as_mut_slice()
    }

    /// Wrap a possibly-negative / out-of-range X onto the torus.
    pub fn wrap_x(&self, x: i64) -> (r: u32)
        requires
            self.wf(),
        ensures
            r == wrapped(x as int, self.w() as int),
            r < self.w(),
    {
        wrap_coord(x, self.width as i64) as u32
    }

    /// Wrap a possibly-negative / out-of-range Y onto the torus.
    pub fn wrap_y(&self, y: i64) -> (r: u32)
        requires
            self.wf(),
        ensures
            r == wrapped(y as int, self.h() as int),
            r < self.h(),
    {
        wrap_coord(y, self.height as i64) as u32
    }

    fn index(&self, x: u32, y: u32) -> (i: usize)
        requires
            self.wf(),
            x < self.w(),
            y < self.h(),
        ensures
            i == y * self.w() + x,
            i < self.cells().len(),
    {
        proof {
            self.lemma_cell_index(x as int, y as int);
            assert(y * self.w() <= y * self.w() + x);
        }
        let len = self.tiles.len();
        (y as usize) * (self.width as usize) + (x as usize)
    }

    pub fn tile(&self, x: u32, y: u32) -> (t: &Tile)
        requires
            self.wf(),
            x < self.w(),
            y < self.h(),
        ensures
            *t == self.tile_at(x as int, y as int),
    {
        &self.tiles[self.index(x, y)]
    }

    pub fn tile_mut(&mut self, x: u32, y: u32) -> (t: &mut Tile)
        requires
            old(self).wf(),
            x < old(self).w(),
            y < old(self).h(),
        ensures
            *t == old(self).tile_at(x as int, y as int),
            final(self).cells() == old(self).cells().update(y * old(self).w() + x, *final(t)),
            final(self).w() == old(self).w(),
            final(self).h() == old(self).h(),
            final(self).seed_of() == old(self).seed_of(),
            final(self).wf(),
    {
        let i = self.index(x, y);
        &mut self.tiles[i]
    }

    /// Toroidal neighbour lookup.
    pub fn tile_at_wrapped(&self, x: i64, y: i64) -> (t: &Tile)
        requires
            self.wf(),
        ensures
            *t == self.tile_at(wrapped(x as int, self.w() as int), wrapped(y as int, self.h() as int)),
    {
        self.tile(self.wrap_x(x), self.wrap_y(y))
    }

    pub fn count_food(&self) -> (n: usize)
        ensures
            n == food_count(self.cells()),
    {
        let mut n: usize = 0;
        let mut i: usize = 0;
        while i < self.tiles.len()
            invariant
                i <= self.tiles@.len(),
                n == food_count(self.tiles@.subrange(0, i as int)),
                n <= i,
            decreases self.tiles@.len() - i,
        {
            assert(self.tiles@.subrange(0, i + 1).drop_last() =~= self.tiles@.subrange(0, i as int));
            if self.tiles[i].food {
                n = n + 1;
            }
            i = i + 1;
        }
        assert(self.tiles@.subrange(0, i as int) =~= self.tiles@);
        n
    }

    pub fn count_stone(&self, kind: StoneKind) -> (n: usize)
        ensures
            n == stone_tally(self.cells(), kind),
    {
        let mut n: usize = 0;
        let mut i: usize = 0;
        while i < self.tiles.len()
            invariant
                i <= self.tiles@.len(),
                n == stone_tally(self.tiles@.subrange(0, i as int), kind),
                n <= i,
            decreases self.tiles@.len() - i,
        {
            assert(self.tiles@.subrange(0, i + 1).drop_last() =~= self.tiles@.subrange(0, i as int));
            if self.tiles[i].has_stone(kind) {
                n = n + 1;
            }
            i = i + 1;
        }
        assert(self.tiles@.subrange(0, i as int) =~= self.tiles@);
        n
    }

    pub fn count_all_stones(&self) -> (n: usize)
        requires
            self.cells().len() * 6 <= usize::MAX,
        ensures
            n == stones_total(self.cells(), 6),
    {
        let mut n: usize = 0;
        let mut k: usize = 0;
        while k < 6
            invariant
                k <= 6,
                n == stones_total(self.cells(), k as nat),
                n <= k * self.cells().len(),
                self.cells().len() * 6 <= usize::MAX,
            decreases 6 - k,
        {
            let kind = StoneKind::from_index(k).unwrap();
            let c = self.count_stone(kind);
            proof {
                lemma_stone_tally_bound(self.cells(), kind);
                assert((k + 1) * self.cells().len() == k * self.cells().len() + self.cells().len()) by (nonlinear_arith);
                assert((k + 1) * self.cells().len() <= 6 * self.cells().len()) by (nonlinear_arith)
                    requires k < 6;
            }
            n = n + c;
            k = k + 1;
        }
        n
    }

    /// Seeded resource passes of the initial generation.
    fn populate_initial(&mut self, rng: &mut SeededRng)
        requires
            old(self).wf(),
        ensures
            final(self).wf(),
            final(self).w() == old(self).w(),
            final(self).h() == old(self).h(),
            final(self).seed_of() == old(self).seed_of(),
            (final(self).cells(), final(rng).state_of()) == populated(old(self).cells(), old(rng).state_of()),
    {
        let n = self.tile_count();
        let food_target = target_amount(FOOD_DENSITY_PERCENT, n);
        self.place_food(food_target, rng);
        let mut k: usize = 0;
        while k < 6
            invariant
                k <= 6,
                self.wf(),
                self.w() == old(self).w(),
                self.h() == old(self).h(),
                self.seed_of() == old(self).seed_of(),
                self.cells().len() == n,
                populated(old(self).cells(), old(rng).state_of()) == initial_stone_passes(
                    self.cells(),
                    rng.state_of(),
                    k as nat,
                ),
            decreases 6 - k,
        {
            let kind = StoneKind::from_index(k).unwrap();
            let target = target_amount(stone_density(k), n);
            self.place_stone(kind, target, rng);
            k = k + 1;
        }
    }

    fn place_food(&mut self, target: usize, rng: &mut SeededRng)
        requires
            old(self).wf(),
        ensures
            final(self).wf(),
            final(self).w() == old(self).w(),
            final(self).h() == old(self).h(),
            final(self).seed_of() == old(self).seed_of(),
            (final(self).cells(), final(rng).state_of()) == food_pass(
                old(self).cells(),
                old(rng).state_of(),
                target as nat,
            ),
    {
        let n = self.tiles.len();
        let mut order = identity_vec(n);
        rng.shuffle(order.as_mut_slice());
        proof {
            lemma_shuffled_bounded(old(rng).state_of(), identity_order(n as nat), n - 1, n as int);
        }
        let mut placed: usize = 0;
        let mut k: usize = 0;
        assert(order@.subrange(0, order@.len() as int) =~= order@);
        while k < order.len() && placed < target
            invariant
                self.wf(),
                self.w() == old(self).w(),
                self.h() == old(self).h(),
                self.seed_of() == old(self).seed_of(),
                self.tiles@.len() == n,
                all_below(order@, n as int),
                k <= order@.len(),
                placed <= target,
                fill_food(old(self).cells(), order@, target as nat) == fill_food(
                    self.cells(),
                    order@.subrange(k as int, order@.len() as int),
                    (target - placed) as nat,
                ),
            decreases order@.len() - k,
        {
            let i = order[k];
            let ghost rest = order@.subrange(k as int, order@.len() as int);
            assert(rest.drop_first() =~= order@.subrange(k + 1, order@.len() as int));
            assert(rest[0] == i);
            let ghost cells0 = self.cells();
            proof {
                cells0[i as int].lemma_tile_updates(StoneKind::Jade, true, StoneKind::Jade);
            }
            let added = self.tiles[i].try_add_food();
            proof {
                if added {
                    assert(self.cells() == cells0.update(i as int, cells0[i as int].with_food(true)));
                } else {
                    assert(self.cells() =~= cells0);
                }
            }
            if added {
                placed = placed + 1;
            }
            k = k + 1;
        }
        proof {
            if placed < target {
                assert(order@.subrange(k as int, order@.len() as int).len() == 0);
            }
            lemma_shuffled_bounded(old(rng).state_of(), identity_order(n as nat), n - 1, n as int);
        }
    }

    fn place_stone(&mut self, kind: StoneKind, target: usize, rng: &mut SeededRng)
        requires
            old(self).wf(),
        ensures
            final(self).wf(),
            final(self).w() == old(self).w(),
            final(self).h() == old(self).h(),
            final(self).seed_of() == old(self).seed_of(),
            (final(self).cells(), final(rng).state_of()) == stone_pass(
                old(self).cells(),
                old(rng).state_of(),
                kind,
                target as nat,
            ),
    {
        let n = self.tiles.len();
        let mut order = identity_vec(n);
        rng.shuffle(order.as_mut_slice());
        proof {
            lemma_shuffled_bounded(old(rng).state_of(), identity_order(n as nat), n - 1, n as int);
        }
        let mut placed: usize = 0;
        let mut k: usize = 0;
        assert(order@.subrange(0, order@.len() as int) =~= order@);
        while k < order.len() && placed < target
            invariant
                self.wf(),
                self.w() == old(self).w(),
                self.h() == old(self).h(),
                self.seed_of() == old(self).seed_of(),
                self.tiles@.len() == n,
                all_below(order@, n as int),
                k <= order@.len(),
                placed <= target,
                fill_stone(old(self).cells(), kind, order@, target as nat) == fill_stone(
                    self.cells(),
                    kind,
                    order@.subrange(k as int, order@.len() as int),
                    (target - placed) as nat,
                ),
            decreases order@.len() - k,
        {
            let i = order[k];
            let ghost rest = order@.subrange(k as int, order@.len() as int);
            assert(rest.drop_first() =~= order@.subrange(k + 1, order@.len() as int));
            assert(rest[0] == i);
            let ghost cells0 = self.cells();
            let added = self.tiles[i].try_add_stone(kind);
            proof {
                if added {
                    assert(self.cells() == cells0.update(i as int, cells0[i as int].with_stone(kind, true)));
                } else {
                    assert(self.cells() =~= cells0);
                }
            }
            if added {
                placed = placed + 1;
            }
            k = k + 1;
        }
        proof {
            if placed < target {
                assert(order@.subrange(k as int, order@.len() as int).len() == 0);
            }
            lemma_shuffled_bounded(old(rng).state_of(), identity_order(n as nat), n - 1, n as int);
        }
    }

    /// Soft refill toward density targets (respawn policy).
    pub fn respawn_tick(&mut self, rng: &mut SeededRng)
        requires
            old(self).wf(),
        ensures
            final(self).wf(),
            final(self).w() == old(self).w(),
            final(self).h() == old(self).h(),
            final(self).seed_of() == old(self).seed_of(),
            (final(self).cells(), final(rng).state_of()) == respawned(old(self).cells(), old(rng).state_of()),
    {
        let n = self.tile_count();
        let food_target = target_amount(FOOD_DENSITY_PERCENT, n);
        let food_have = self.count_food();
        if food_have < food_target {
            let missing = food_target - food_have;
            self.place_food(attempts_for(missing), rng);
        }
        let mut k: usize = 0;
        while k < 6
            invariant
                k <= 6,
                self.wf(),
                self.w() == old(self).w(),
                self.h() == old(self).h(),
                self.seed_of() == old(self).seed_of(),
                self.cells().len() == n,
                respawned(old(self).cells(), old(rng).state_of()) == respawn_stones(
                    self.cells(),
                    rng.state_of(),
                    k as nat,
                ),
            decreases 6 - k,
        {
            let kind = StoneKind::from_index(k).unwrap();
            let target = target_amount(stone_density(k), n);
            let have = self.count_stone(kind);
            if have < target {
                let missing = target - have;
                self.place_stone(kind, attempts_for(missing), rng);
            }
            k = k + 1;
        }
    }

    /// Human-readable summary for server logs.
    pub fn summary_line(&self) -> (s: String)
        ensures
            s@ == summary_text(*self),
    {
        let mut s = crate::text::to_owned_string("world ");
        crate::text::push_decimal(&mut s, self.width as u64);
        crate::text::push_str(&mut s, "x");
        crate::text::push_decimal(&mut s, self.height as u64);
        crate::text::push_str(&mut s, " seed=");
        crate::text::push_decimal(&mut s, self.seed);
        crate::text::push_str(&mut s, " tiles=");
        crate::text::push_decimal(&mut s, self.tiles.len() as u64);
        crate::text::push_str(&mut s, " food=");
        crate::text::push_decimal(&mut s, self.count_food() as u64);
        let mut k: usize = 0;
        while k < 6
            invariant
                k <= 6,
                s@ == summary_prefix(*self) + stone_counts_text(self.cells(), k as nat),
            decreases 6 - k,
        {
            let kind = StoneKind::from_index(k).unwrap();
            crate::text::push_str(&mut s, " ");
            crate::text::push_str(&mut s, kind.as_str());
            crate::text::push_str(&mut s, "=");
            crate::text::push_decimal(&mut s, self.count_stone(kind) as u64);
            k = k + 1;
            proof {
                assert(s@ =~= summary_prefix(*self) + stone_counts_text(self.cells(), k as nat));
            }
        }
        s
    }

    /// Whether every tile respects the per-tile rules.
    pub fn assert_invariants(&self) -> (ok: bool)
        ensures
            ok == all_within_rules(self.cells()),
    {
        let mut i: usize = 0;
        while i < self.tiles.len()
            invariant
                i <= self.tiles@.len(),
                forall|j: int| 0 <= j < i ==> (#[trigger] self.tiles@[j]).within_rules(),
            decreases self.tiles@.len() - i,
        {
            if self.tiles[i].stone_count() > MAX_STONE_TYPES_PER_TILE {
                return false;
            }
            i = i + 1;
        }
        true
    }
}

/// Total number of stones of the kinds at positions `0..k` over all tiles.
pub open spec fn stones_total(tiles: Seq<Tile>, k: nat) -> nat
    decreases k,
{
    if k == 0 {
        0
    } else {
        stones_total(tiles, (k - 1) as nat) + stone_tally(tiles, StoneKind::at(k - 1))
    }
}

proof fn lemma_stone_tally_bound(tiles: Seq<Tile>, kind: StoneKind)
    ensures
        stone_tally(tiles, kind) <= tiles.len(),
    decreases tiles.len(),
{
    if tiles.len() > 0 {
        lemma_stone_tally_bound(tiles.drop_last(), kind);
    }
}

/// `" jade=J peridot=P …"` for the kinds at positions `0..k`.
pub open spec fn stone_counts_text(tiles: Seq<Tile>, k: nat) -> Seq<char>
    decreases k,
{
    if k == 0 {
        Seq::empty()
    } else {
        let kind = StoneKind::at(k - 1);
        stone_counts_text(tiles, (k - 1) as nat) + " "@ + kind.name() + "="@ + crate::text::decimal(
            stone_tally(tiles, kind),
        )
    }
}

/// `"world WxH seed=S tiles=N food=F"`.
pub open spec fn summary_prefix(world: World) -> Seq<char> {
    "world "@ + crate::text::decimal(world.w()) + "x"@ + crate::text::decimal(world.h()) + " seed="@
        + crate::text::decimal(world.seed_of() as nat) + " tiles="@ + crate::text::decimal(
        world.cells().len(),
    ) + " food="@ + crate::text::decimal(food_count(world.cells()))
}

/// The summary line of `world`.
pub open spec fn summary_text(world: World) -> Seq<char> {
    summary_prefix(world) + stone_counts_text(world.cells(), 6)
}

/// `0, 1, …, n - 1`.
fn identity_vec(n: usize) -> (v: Vec<usize>)
    ensures
        v@ == identity_order(n as nat),
        all_below(v@, n as int),
{
    let mut v: Vec<usize> = Vec::new();
    let mut i: usize = 0;
    while i < n
        invariant
            i <= n,
            v@ == identity_order(i as nat),
        decreases n - i,
    {
        v.push(i);
        i = i + 1;
        assert(v@ =~= identity_order(i as nat));
    }
    v
}

/// `round(pct% of n)`, halves up, capped at `n`.
fn target_amount(pct: u64, n: usize) -> (t: usize)
    requires
        pct <= 100,
    ensures
        t == target_count(pct as nat, n as nat),
{
    let n128: u128 = n as u128;
    let p128: u128 = pct as u128;
    assert(p128 * n128 <= 100 * 18_446_744_073_709_551_615u128) by (nonlinear_arith)
        requires p128 <= 100, n128 <= 18_446_744_073_709_551_615u128;
    let t = (p128 * n128 + 50) / 100;
    if t > n128 {
        n
    } else {
        t as usize
    }
}

/// Placements tried by a respawn pass for `missing` missing units.
fn attempts_for(missing: usize) -> (a: usize)
    ensures
        a == respawn_attempts(missing as nat),
{
    let m: u128 = missing as u128;
    assert(m <= 18_446_744_073_709_551_615u128);
    let rate: u128 = RESPAWN_RATE_PERCENT as u128;
    assert(rate == 15);
    let a = (rate * m + 99) / 100;
    let a1 = if a < 1 {
        1
    } else {
        a
    };
    if a1 > m {
        missing
    } else {
        a1 as usize
    }
}

proof fn lemma_negative_wrap(v: int, d: int)
    requires
        v < 0,
        d > 0,
    ensures
        v % d == d - 1 - ((-v - 1) % d),
{
    let p = -v - 1;
    let q = p / d;
    let r = p % d;
    vstd::arithmetic::div_mod::lemma_fundamental_div_mod(p, d);
    vstd::arithmetic::div_mod::lemma_mod_bound(p, d);
    // v = -p - 1 = -(q d + r) - 1 = (-q - 1) d + (d - 1 - r)
    assert(v == (-q - 1) * d + (d - 1 - r)) by (nonlinear_arith)
        requires
            p == d * q + r,
            v == -p - 1,
    ;
    vstd::arithmetic::div_mod::lemma_fundamental_div_mod_converse(v, d, -q - 1, d - 1 - r);
}

/// Euclidean-modulo wrap into `0..dim`.
pub(crate) fn wrap_coord(value: i64, dim: i64) -> (r: i64)
    requires
        dim > 0,
    ensures
        r == wrapped(value as int, dim as int),
        0 <= r < dim,
{
    if value >= 0 {
        value % dim
    } else {
        let p: i64 = -(value + 1);
        let q: i64 = p % dim;
        proof {
            lemma_negative_wrap(value as int, dim as int);
        }
        dim - 1 - q
    }
}

/// Filling food keeps every tile within the rules.
proof fn lemma_fill_food_rules(tiles: Seq<Tile>, order: Seq<usize>, target: nat)
    requires
        all_within_rules(tiles),
    ensures
        all_within_rules(fill_food(tiles, order, target)),
        fill_food(tiles, order, target).len() == tiles.len(),
    decreases order.len(),
{
    if order.len() > 0 && target > 0 {
        let i = order[0] as int;
        if 0 <= i < tiles.len() && !tiles[i].has_food() {
            let t2 = tiles.update(i, tiles[i].with_food(true));
            tiles[i].lemma_tile_updates(StoneKind::Jade, false, StoneKind::Jade);
            assert forall|j: int| 0 <= j < t2.len() implies (#[trigger] t2[j]).within_rules() by {
                if j != i {
                    assert(t2[j] == tiles[j]);
                }
            }
            lemma_fill_food_rules(t2, order.drop_first(), (target - 1) as nat);
        } else {
            lemma_fill_food_rules(tiles, order.drop_first(), target);
        }
    }
}

/// Filling a stone kind keeps every tile within the rules.
proof fn lemma_fill_stone_rules(tiles: Seq<Tile>, kind: StoneKind, order: Seq<usize>, target: nat)
    requires
        all_within_rules(tiles),
    ensures
        all_within_rules(fill_stone(tiles, kind, order, target)),
        fill_stone(tiles, kind, order, target).len() == tiles.len(),
    decreases order.len(),
{
    if order.len() > 0 && target > 0 {
        let i = order[0] as int;
        if 0 <= i < tiles.len() && stone_fits(tiles[i], kind) {
            let t2 = tiles.update(i, tiles[i].with_stone(kind, true));
            tiles[i].lemma_tile_updates(kind, true, kind);
            assert forall|j: int| 0 <= j < t2.len() implies (#[trigger] t2[j]).within_rules() by {
                if j != i {
                    assert(t2[j] == tiles[j]);
                }
            }
            lemma_fill_stone_rules(t2, kind, order.drop_first(), (target - 1) as nat);
        } else {
            lemma_fill_stone_rules(tiles, kind, order.drop_first(), target);
        }
    }
}

/// The initial stone passes keep every tile within the rules.
proof fn lemma_initial_stones_rules(tiles: Seq<Tile>, state: u64, k: nat)
    requires
        all_within_rules(tiles),
    ensures
        all_within_rules(initial_stone_passes(tiles, state, k).0),
    decreases 6 - k,
{
    if k < 6 {
        let kind = StoneKind::at(k as int);
        let target = target_count(stone_density_percent(k as int), tiles.len());
        let sh = shuffled(state, identity_order(tiles.len()), tiles.len() - 1);
        lemma_fill_stone_rules(tiles, kind, sh.1, target);
        let p = stone_pass(tiles, state, kind, target);
        lemma_initial_stones_rules(p.0, p.1, k + 1);
    }
}

/// The respawn stone passes keep every tile within the rules.
proof fn lemma_respawn_stones_rules(tiles: Seq<Tile>, state: u64, k: nat)
    requires
        all_within_rules(tiles),
    ensures
        all_within_rules(respawn_stones(tiles, state, k).0),
    decreases 6 - k,
{
    if k < 6 {
        let kind = StoneKind::at(k as int);
        let target = target_count(stone_density_percent(k as int), tiles.len());
        let have = stone_tally(tiles, kind);
        if have < target {
            let sh = shuffled(state, identity_order(tiles.len()), tiles.len() - 1);
            lemma_fill_stone_rules(tiles, kind, sh.1, respawn_attempts((target - have) as nat));
        }
        let p = if have < target {
            stone_pass(tiles, state, kind, respawn_attempts((target - have) as nat))
        } else {
            (tiles, state)
        };
        lemma_respawn_stones_rules(p.0, p.1, k + 1);
    }
}

/// Every map that generation builds keeps each tile within the rules: at
/// most one food, at most one stone of a kind, at most three kinds.
pub proof fn law_generation_within_rules(width: u32, height: u32, seed: u64)
    ensures
        all_within_rules(generated_tiles(width, height, seed)),
{
    let tiles = bare_tiles((width * height) as nat);
    assert forall|j: int| 0 <= j < tiles.len() implies (#[trigger] tiles[j]).within_rules() by {
        Tile::bare().lemma_tile_updates(StoneKind::Jade, false, StoneKind::Jade);
    }
    let state = seed_state(seed);
    let target = target_count(FOOD_DENSITY_PERCENT as nat, tiles.len());
    let sh = shuffled(state, identity_order(tiles.len()), tiles.len() - 1);
    lemma_fill_food_rules(tiles, sh.1, target);
    let f = food_pass(tiles, state, target);
    lemma_initial_stones_rules(f.0, f.1, 0);
}

/// A respawn refill keeps each tile within the rules.
pub proof fn law_respawn_within_rules(tiles: Seq<Tile>, state: u64)
    requires
        all_within_rules(tiles),
    ensures
        all_within_rules(respawned(tiles, state).0),
{
    let target = target_count(FOOD_DENSITY_PERCENT as nat, tiles.len());
    let have = food_count(tiles);
    if have < target {
        let sh = shuffled(state, identity_order(tiles.len()), tiles.len() - 1);
        lemma_fill_food_rules(tiles, sh.1, respawn_attempts((target - have) as nat));
    }
    let f = respawn_food(tiles, state);
    lemma_respawn_stones_rules(f.0, f.1, 0);
}

/// Changing one tile changes the food count by that tile's food only.
proof fn lemma_food_count_update(s: Seq<Tile>, i: int, t: Tile)
    requires
        0 <= i < s.len(),
    ensures
        food_count(s.update(i, t)) + (if s[i].has_food() {
            1int
        } else {
            0int
        }) == food_count(s) + (if t.has_food() {
            1int
        } else {
            0int
        }),
    decreases s.len(),
{
    let u = s.update(i, t);
    if i == s.len() - 1 {
        assert(u.drop_last() =~= s.drop_last());
    } else {
        assert(u.drop_last() =~= s.drop_last().update(i, t));
        lemma_food_count_update(s.drop_last(), i, t);
    }
}

/// Changing one tile changes the tally of `kind` by that tile's stone only.
proof fn lemma_stone_tally_update(s: Seq<Tile>, i: int, t: Tile, kind: StoneKind)
    requires
        0 <= i < s.len(),
    ensures
        stone_tally(s.update(i, t), kind) + (if s[i].holds(kind) {
            1int
        } else {
            0int
        }) == stone_tally(s, kind) + (if t.holds(kind) {
            1int
        } else {
            0int
        }),
    decreases s.len(),
{
    let u = s.update(i, t);
    if i == s.len() - 1 {
        assert(u.drop_last() =~= s.drop_last());
    } else {
        assert(u.drop_last() =~= s.drop_last().update(i, t));
        lemma_stone_tally_update(s.drop_last(), i, t, kind);
    }
}

/// Maps agreeing on food tile by tile have the same food count.
proof fn lemma_food_count_same(a: Seq<Tile>, b: Seq<Tile>)
    requires
        a.len() == b.len(),
        forall|j: int| 0 <= j < a.len() ==> #[trigger] a[j].has_food() == b[j].has_food(),
    ensures
        food_count(a) == food_count(b),
    decreases a.len(),
{
    if a.len() > 0 {
        assert(a[a.len() - 1].has_food() == b[b.len() - 1].has_food());
        assert forall|j: int| 0 <= j < a.drop_last().len() implies #[trigger] a.drop_last()[j].has_food() == b.drop_last()[j].has_food() by {
            assert(a[j].has_food() == b[j].has_food());
        }
        lemma_food_count_same(a.drop_last(), b.drop_last());
    }
}

/// Maps agreeing on `kind` tile by tile have the same tally of it.
proof fn lemma_stone_tally_same(a: Seq<Tile>, b: Seq<Tile>, kind: StoneKind)
    requires
        a.len() == b.len(),
        forall|j: int| 0 <= j < a.len() ==> #[trigger] a[j].holds(kind) == b[j].holds(kind),
    ensures
        stone_tally(a, kind) == stone_tally(b, kind),
    decreases a.len(),
{
    if a.len() > 0 {
        assert(a[a.len() - 1].holds(kind) == b[b.len() - 1].holds(kind));
        assert forall|j: int| 0 <= j < a.drop_last().len() implies #[trigger] a.drop_last()[j].holds(kind) == b.drop_last()[j].holds(kind) by {
            assert(a[j].holds(kind) == b[j].holds(kind));
        }
        lemma_stone_tally_same(a.drop_last(), b.drop_last(), kind);
    }
}

/// The empty map holds no food and no stone.
proof fn lemma_bare_counts(n: nat, kind: StoneKind)
    ensures
        food_count(bare_tiles(n)) == 0,
        stone_tally(bare_tiles(n), kind) == 0,
    decreases n,
{
    Tile::bare().lemma_tile_updates(kind, false, kind);
    if n > 0 {
        assert(bare_tiles(n).drop_last() =~= bare_tiles((n - 1) as nat));
        lemma_bare_counts((n - 1) as nat, kind);
    }
}

/// Shuffling a list without repeats gives a list without repeats.
proof fn lemma_shuffled_distinct(state: u64, s: Seq<usize>, i: int)
    requires
        i < s.len(),
        s.no_duplicates(),
    ensures
        shuffled(state, s, i).1.no_duplicates(),
    decreases i,
{
    if i >= 1 {
        let j = draw_index(state, (i + 1) as usize) as int;
        assert(j < i + 1);
        let s2 = swapped(s, i, j);
        assert forall|a: int, b: int| 0 <= a < s2.len() && 0 <= b < s2.len() && a != b implies s2[a] != s2[b] by {
            lemma_swapped_at(s, i, j, a);
            lemma_swapped_at(s, i, j, b);
        }
        lemma_shuffled_distinct(xorshift(state), s2, i - 1);
    }
}

/// The tile order a pass walks: every tile position, each once.
proof fn lemma_pass_order(state: u64, n: nat)
    requires
        n <= usize::MAX,
    ensures
        shuffled(state, identity_order(n), n - 1).1.no_duplicates(),
        shuffled(state, identity_order(n), n - 1).1.len() == n,
        all_below(shuffled(state, identity_order(n), n - 1).1, n as int),
{
    let id = identity_order(n);
    assert(all_below(id, n as int));
    assert forall|a: int, b: int| 0 <= a < id.len() && 0 <= b < id.len() && a != b implies id[a] != id[b] by {
        assert(id[a] == a as usize && id[b] == b as usize);
    }
    lemma_shuffled_bounded(state, id, n - 1, n as int);
    lemma_shuffled_distinct(state, id, n - 1);
}

/// Filling food changes a tile only by putting food on it; along distinct
/// food-free tiles it places exactly `target` units.
proof fn lemma_fill_food_counts(tiles: Seq<Tile>, order: Seq<usize>, target: nat)
    ensures
        fill_food(tiles, order, target).len() == tiles.len(),
        forall|j: int|
            0 <= j < tiles.len() ==> #[trigger] fill_food(tiles, order, target)[j] == tiles[j]
                || fill_food(tiles, order, target)[j] == tiles[j].with_food(true),
        food_count(tiles) <= food_count(fill_food(tiles, order, target)) <= food_count(tiles) + target,
        order.no_duplicates() && all_below(order, tiles.len() as int) && target <= order.len() && (forall|k: int|
            0 <= k < order.len() ==> !(#[trigger] tiles[order[k] as int]).has_food()) ==> food_count(
            fill_food(tiles, order, target),
        ) == food_count(tiles) + target,
    decreases order.len(),
{
    let r = fill_food(tiles, order, target);
    if order.len() == 0 || target == 0 {
    } else {
        let i = order[0] as int;
        let rest = order.drop_first();
        if 0 <= i < tiles.len() && !tiles[i].has_food() {
            let t2 = tiles.update(i, tiles[i].with_food(true));
            lemma_fill_food_counts(t2, rest, (target - 1) as nat);
            tiles[i].lemma_tile_updates(StoneKind::Jade, true, StoneKind::Jade);
            lemma_food_count_update(tiles, i, tiles[i].with_food(true));
            assert forall|j: int| 0 <= j < tiles.len() implies #[trigger] r[j] == tiles[j] || r[j] == tiles[j].with_food(true) by {
                if j == i {
                    assert(t2[j].with_food(true) == tiles[j].with_food(true));
                }
            }
            if order.no_duplicates() && all_below(order, tiles.len() as int) && target <= order.len() && (forall|k: int|
                0 <= k < order.len() ==> !(#[trigger] tiles[order[k] as int]).has_food()) {
                lemma_food_count_update(tiles, i, tiles[i].with_food(true));
                assert(rest.no_duplicates()) by {
                    assert forall|a: int, b: int| 0 <= a < rest.len() && 0 <= b < rest.len() && a != b implies rest[a] != rest[b] by {
                        assert(rest[a] == order[a + 1] && rest[b] == order[b + 1]);
                    }
                }
                assert(all_below(rest, t2.len() as int)) by {
                    assert forall|k: int| 0 <= k < rest.len() implies #[trigger] rest[k] < t2.len() by {
                        assert(rest[k] == order[k + 1]);
                    }
                }
                assert forall|k: int| 0 <= k < rest.len() implies !(#[trigger] t2[rest[k] as int]).has_food() by {
                    assert(rest[k] == order[k + 1]);
                    assert(order[k + 1] != order[0]);
                    assert(!tiles[order[k + 1] as int].has_food());
                }
            }
        } else {
            lemma_fill_food_counts(tiles, rest, target);
            if order.no_duplicates() && all_below(order, tiles.len() as int) && target <= order.len() && (forall|k: int|
                0 <= k < order.len() ==> !(#[trigger] tiles[order[k] as int]).has_food()) {
                assert(order[0] < tiles.len());
                assert(!tiles[order[0] as int].has_food());
            }
        }
    }
}

/// Filling a stone kind changes a tile only by adding that kind where it
/// fits; along distinct tiles where it fits it places exactly `target` stones.
proof fn lemma_fill_stone_counts(tiles: Seq<Tile>, kind: StoneKind, order: Seq<usize>, target: nat)
    ensures
        fill_stone(tiles, kind, order, target).len() == tiles.len(),
        forall|j: int|
            0 <= j < tiles.len() ==> #[trigger] fill_stone(tiles, kind, order, target)[j] == tiles[j] || (
            fill_stone(tiles, kind, order, target)[j] == tiles[j].with_stone(kind, true) && stone_fits(tiles[j], kind)),
        stone_tally(tiles, kind) <= stone_tally(fill_stone(tiles, kind, order, target), kind) <= stone_tally(tiles, kind) + target,
        order.no_duplicates() && all_below(order, tiles.len() as int) && target <= order.len() && (forall|k: int|
            0 <= k < order.len() ==> stone_fits(#[trigger] tiles[order[k] as int], kind)) ==> stone_tally(
            fill_stone(tiles, kind, order, target),
            kind,
        ) == stone_tally(tiles, kind) + target,
    decreases order.len(),
{
    let r = fill_stone(tiles, kind, order, target);
    if order.len() == 0 || target == 0 {
    } else {
        let i = order[0] as int;
        let rest = order.drop_first();
        if 0 <= i < tiles.len() && stone_fits(tiles[i], kind) {
            let t2 = tiles.update(i, tiles[i].with_stone(kind, true));
            lemma_fill_stone_counts(t2, kind, rest, (target - 1) as nat);
            tiles[i].lemma_tile_updates(kind, true, kind);
            lemma_stone_tally_update(tiles, i, tiles[i].with_stone(kind, true), kind);
            assert forall|j: int| 0 <= j < tiles.len() implies #[trigger] r[j] == tiles[j] || (r[j] == tiles[j].with_stone(kind, true)
                && stone_fits(tiles[j], kind)) by {
                if j == i {
                    assert(!stone_fits(t2[j], kind));
                }
            }
            if order.no_duplicates() && all_below(order, tiles.len() as int) && target <= order.len() && (forall|k: int|
                0 <= k < order.len() ==> stone_fits(#[trigger] tiles[order[k] as int], kind)) {
                assert(rest.no_duplicates()) by {
                    assert forall|a: int, b: int| 0 <= a < rest.len() && 0 <= b < rest.len() && a != b implies rest[a] != rest[b] by {
                        assert(rest[a] == order[a + 1] && rest[b] == order[b + 1]);
                    }
                }
                assert(all_below(rest, t2.len() as int)) by {
                    assert forall|k: int| 0 <= k < rest.len() implies #[trigger] rest[k] < t2.len() by {
                        assert(rest[k] == order[k + 1]);
                    }
                }
                assert forall|k: int| 0 <= k < rest.len() implies stone_fits(#[trigger] t2[rest[k] as int], kind) by {
                    assert(rest[k] == order[k + 1]);
                    assert(order[k + 1] != order[0]);
                    assert(stone_fits(tiles[order[k + 1] as int], kind));
                }
            }
        } else {
            lemma_fill_stone_counts(tiles, kind, rest, target);
            if order.no_duplicates() && all_below(order, tiles.len() as int) && target <= order.len() && (forall|k: int|
                0 <= k < order.len() ==> stone_fits(#[trigger] tiles[order[k] as int], kind)) {
                assert(order[0] < tiles.len());
                assert(stone_fits(tiles[order[0] as int], kind));
            }
        }
    }
}

/// A map where no tile holds `kind` has a tally of zero for it.
proof fn lemma_tally_none(tiles: Seq<Tile>, kind: StoneKind)
    requires
        forall|j: int| 0 <= j < tiles.len() ==> !(#[trigger] tiles[j]).holds(kind),
    ensures
        stone_tally(tiles, kind) == 0,
{
    let b = bare_tiles(tiles.len());
    Tile::bare().lemma_tile_updates(kind, false, kind);
    lemma_stone_tally_same(tiles, b, kind);
    lemma_bare_counts(tiles.len(), kind);
}

/// The initial stone passes from kind `k` on: starting from tiles holding at
/// most `k` kinds and none of the kinds still to come, the first three kinds
/// get exactly their targets, the others at most theirs, and food and the
/// kinds already placed stay as they were.
proof fn lemma_initial_stone_counts(tiles: Seq<Tile>, state: u64, k: nat)
    requires
        k <= 6,
        tiles.len() <= usize::MAX,
        forall|j: int| 0 <= j < tiles.len() ==> (#[trigger] tiles[j]).kinds() <= k,
        forall|j: int, m: int| 0 <= j < tiles.len() && k <= m < 6 ==> !(#[trigger] tiles[j]).holds(#[trigger] StoneKind::at(m)),
    ensures
        initial_stone_passes(tiles, state, k).0.len() == tiles.len(),
        food_count(initial_stone_passes(tiles, state, k).0) == food_count(tiles),
        forall|m: int|
            0 <= m < k ==> #[trigger] stone_tally(initial_stone_passes(tiles, state, k).0, StoneKind::at(m)) == stone_tally(
                tiles,
                StoneKind::at(m),
            ),
        forall|m: int|
            k <= m < 3 ==> #[trigger] stone_tally(initial_stone_passes(tiles, state, k).0, StoneKind::at(m)) == target_count(
                stone_density_percent(m),
                tiles.len(),
            ),
        forall|m: int|
            k <= m < 6 ==> #[trigger] stone_tally(initial_stone_passes(tiles, state, k).0, StoneKind::at(m)) <= target_count(
                stone_density_percent(m),
                tiles.len(),
            ),
    decreases 6 - k,
{
    if k < 6 {
        let n = tiles.len();
        let kind = StoneKind::at(k as int);
        let target = target_count(stone_density_percent(k as int), n);
        let sh = shuffled(state, identity_order(n), n - 1);
        lemma_pass_order(state, n);
        lemma_fill_stone_counts(tiles, kind, sh.1, target);
        let p = stone_pass(tiles, state, kind, target);
        assert(p.0 == fill_stone(tiles, kind, sh.1, target));
        lemma_stone_index_roundtrip(kind, k as int);
        assert forall|j: int| 0 <= j < n implies !(#[trigger] tiles[j]).holds(kind) by {
            assert(!tiles[j].holds(StoneKind::at(k as int)));
        }
        lemma_tally_none(tiles, kind);
        if k < 3 {
            assert forall|q: int| 0 <= q < sh.1.len() implies stone_fits(#[trigger] tiles[sh.1[q] as int], kind) by {
                assert(sh.1[q] < n);
            }
        }
        // What the pass did to each tile.
        assert forall|j: int| 0 <= j < n implies (#[trigger] p.0[j]).kinds() <= k + 1 && p.0[j].has_food() == tiles[j].has_food()
            && forall|m: int| 0 <= m < 6 && m != k ==> p.0[j].holds(#[trigger] StoneKind::at(m)) == tiles[j].holds(StoneKind::at(m)) by {
            tiles[j].lemma_tile_updates(kind, true, kind);
            assert forall|m: int| 0 <= m < 6 && m != k implies p.0[j].holds(#[trigger] StoneKind::at(m)) == tiles[j].holds(StoneKind::at(m)) by {
                lemma_stone_index_roundtrip(StoneKind::at(m), m);
                tiles[j].lemma_tile_updates(kind, true, StoneKind::at(m));
            }
        }
        assert forall|j: int, m: int| 0 <= j < p.0.len() && k + 1 <= m < 6 implies !(#[trigger] p.0[j]).holds(#[trigger] StoneKind::at(m)) by {
            assert(p.0[j].holds(StoneKind::at(m)) == tiles[j].holds(StoneKind::at(m)));
        }
        lemma_initial_stone_counts(p.0, p.1, k + 1);
        let r = initial_stone_passes(tiles, state, k).0;
        assert(r == initial_stone_passes(p.0, p.1, k + 1).0);
        lemma_food_count_same(p.0, tiles);
        assert forall|m: int| 0 <= m < 6 && m != k implies #[trigger] stone_tally(p.0, StoneKind::at(m)) == stone_tally(tiles, StoneKind::at(m)) by {
            assert forall|j: int| 0 <= j < p.0.len() implies #[trigger] p.0[j].holds(StoneKind::at(m)) == tiles[j].holds(StoneKind::at(m)) by {}
            lemma_stone_tally_same(p.0, tiles, StoneKind::at(m));
        }
        assert(stone_tally(r, kind) == stone_tally(p.0, kind));
    }
}

/// A generated map holds exactly the target count of food (half the squares,
/// rounded) and of jade, peridot and amber, and at most the target count of
/// amethyst, garnet and ammolite (a square takes at most three kinds).
pub proof fn law_generation_counts(width: u32, height: u32, seed: u64)
    requires
        width * height <= usize::MAX,
    ensures
        food_count(generated_tiles(width, height, seed)) == target_count(
            FOOD_DENSITY_PERCENT as nat,
            (width * height) as nat,
        ),
        forall|m: int|
            0 <= m < 3 ==> #[trigger] stone_tally(generated_tiles(width, height, seed), StoneKind::at(m)) == target_count(
                stone_density_percent(m),
                (width * height) as nat,
            ),
        forall|m: int|
            0 <= m < 6 ==> #[trigger] stone_tally(generated_tiles(width, height, seed), StoneKind::at(m)) <= target_count(
                stone_density_percent(m),
                (width * height) as nat,
            ),
{
    let n = (width * height) as nat;
    let tiles = bare_tiles(n);
    let state = seed_state(seed);
    let target = target_count(FOOD_DENSITY_PERCENT as nat, n);
    let sh = shuffled(state, identity_order(n), n - 1);
    lemma_pass_order(state, n);
    lemma_fill_food_counts(tiles, sh.1, target);
    lemma_bare_counts(n, StoneKind::Jade);
    Tile::bare().lemma_tile_updates(StoneKind::Jade, true, StoneKind::Jade);
    assert forall|q: int| 0 <= q < sh.1.len() implies !(#[trigger] tiles[sh.1[q] as int]).has_food() by {
        assert(sh.1[q] < n);
    }
    let f = food_pass(tiles, state, target);
    assert(f.0 == fill_food(tiles, sh.1, target));
    assert forall|j: int| 0 <= j < f.0.len() implies (#[trigger] f.0[j]).kinds() <= 0 by {
        Tile::bare().lemma_tile_updates(StoneKind::Jade, true, StoneKind::Jade);
    }
    assert forall|j: int, m: int| 0 <= j < f.0.len() && 0 <= m < 6 implies !(#[trigger] f.0[j]).holds(#[trigger] StoneKind::at(m)) by {
        Tile::bare().lemma_tile_updates(StoneKind::Jade, true, StoneKind::at(m));
    }
    lemma_initial_stone_counts(f.0, f.1, 0);
}

/// What the respawn pass of stone kind `k` leaves, and the generator state after it.
spec fn stone_step(tiles: Seq<Tile>, state: u64, k: nat) -> (Seq<Tile>, u64) {
    let kind = StoneKind::at(k as int);
    let target = target_count(stone_density_percent(k as int), tiles.len());
    let have = stone_tally(tiles, kind);
    if have < target {
        stone_pass(tiles, state, kind, respawn_attempts((target - have) as nat))
    } else {
        (tiles, state)
    }
}

/// One stone pass touches only its own kind: it keeps food and the other
/// kinds, never removes a stone of its kind, adds at most the attempts it
/// makes, and does nothing at or above the kind's target.
proof fn lemma_stone_step(tiles: Seq<Tile>, state: u64, k: nat)
    requires
        k < 6,
    ensures
        respawn_stones(tiles, state, k) == respawn_stones(stone_step(tiles, state, k).0, stone_step(tiles, state, k).1, k + 1),
        stone_step(tiles, state, k).0.len() == tiles.len(),
        food_count(stone_step(tiles, state, k).0) == food_count(tiles),
        forall|m: int|
            0 <= m < 6 && m != k ==> #[trigger] stone_tally(stone_step(tiles, state, k).0, StoneKind::at(m)) == stone_tally(
                tiles,
                StoneKind::at(m),
            ),
        stone_tally(tiles, StoneKind::at(k as int)) <= stone_tally(stone_step(tiles, state, k).0, StoneKind::at(k as int)),
        ({
            let target = target_count(stone_density_percent(k as int), tiles.len());
            let have = stone_tally(tiles, StoneKind::at(k as int));
            let after = stone_tally(stone_step(tiles, state, k).0, StoneKind::at(k as int));
            &&& have < target ==> after <= have + respawn_attempts((target - have) as nat)
            &&& have < target ==> after <= target
            &&& have >= target ==> after == have
        }),
{
    let n = tiles.len();
    let kind = StoneKind::at(k as int);
    let target = target_count(stone_density_percent(k as int), n);
    let have = stone_tally(tiles, kind);
    let p = stone_step(tiles, state, k);
    lemma_stone_index_roundtrip(kind, k as int);
    law_respawn_attempts((target - have) as nat);
    if have < target {
        let sh = shuffled(state, identity_order(n), n - 1);
        lemma_fill_stone_counts(tiles, kind, sh.1, respawn_attempts((target - have) as nat));
        assert(p.0 == fill_stone(tiles, kind, sh.1, respawn_attempts((target - have) as nat)));
    }
    assert forall|j: int| 0 <= j < n implies (#[trigger] p.0[j]).has_food() == tiles[j].has_food()
        && forall|m: int| 0 <= m < 6 && m != k ==> p.0[j].holds(#[trigger] StoneKind::at(m)) == tiles[j].holds(StoneKind::at(m)) by {
        tiles[j].lemma_tile_updates(kind, true, kind);
        assert forall|m: int| 0 <= m < 6 && m != k implies p.0[j].holds(#[trigger] StoneKind::at(m)) == tiles[j].holds(StoneKind::at(m)) by {
            lemma_stone_index_roundtrip(StoneKind::at(m), m);
            tiles[j].lemma_tile_updates(kind, true, StoneKind::at(m));
        }
    }
    lemma_food_count_same(p.0, tiles);
    assert forall|m: int| 0 <= m < 6 && m != k implies #[trigger] stone_tally(p.0, StoneKind::at(m)) == stone_tally(tiles, StoneKind::at(m)) by {
        assert forall|j: int| 0 <= j < p.0.len() implies #[trigger] p.0[j].holds(StoneKind::at(m)) == tiles[j].holds(StoneKind::at(m)) by {}
        lemma_stone_tally_same(p.0, tiles, StoneKind::at(m));
    }
}

/// The respawn stone passes from kind `k` on leave food and the kinds
/// before `k` as they were, and never remove a stone nor raise a kind's tally
/// past its target when it was below it.
proof fn lemma_respawn_stone_counts(tiles: Seq<Tile>, state: u64, k: nat)
    requires
        k <= 6,
    ensures
        respawn_stones(tiles, state, k).0.len() == tiles.len(),
        food_count(respawn_stones(tiles, state, k).0) == food_count(tiles),
        forall|m: int|
            0 <= m < k ==> #[trigger] stone_tally(respawn_stones(tiles, state, k).0, StoneKind::at(m)) == stone_tally(
                tiles,
                StoneKind::at(m),
            ),
        forall|m: int|
            k <= m < 6 ==> stone_tally(tiles, StoneKind::at(m)) <= #[trigger] stone_tally(
                respawn_stones(tiles, state, k).0,
                StoneKind::at(m),
            ),
        forall|m: int|
            k <= m < 6 && stone_tally(tiles, StoneKind::at(m)) < target_count(stone_density_percent(m), tiles.len())
                ==> #[trigger] stone_tally(respawn_stones(tiles, state, k).0, StoneKind::at(m)) <= target_count(
                stone_density_percent(m),
                tiles.len(),
            ),
        forall|m: int|
            k <= m < 6 && stone_tally(tiles, StoneKind::at(m)) >= target_count(stone_density_percent(m), tiles.len())
                ==> #[trigger] stone_tally(respawn_stones(tiles, state, k).0, StoneKind::at(m)) == stone_tally(
                tiles,
                StoneKind::at(m),
            ),
        forall|m: int|
            k <= m < 6 && stone_tally(tiles, StoneKind::at(m)) < target_count(stone_density_percent(m), tiles.len())
                ==> #[trigger] stone_tally(respawn_stones(tiles, state, k).0, StoneKind::at(m)) <= stone_tally(
                tiles,
                StoneKind::at(m),
            ) + respawn_attempts(
                (target_count(stone_density_percent(m), tiles.len()) - stone_tally(tiles, StoneKind::at(m))) as nat,
            ),
    decreases 6 - k,
{
    if k < 6 {
        let n = tiles.len();
        let kind = StoneKind::at(k as int);
        let p = stone_step(tiles, state, k);
        lemma_stone_step(tiles, state, k);
        lemma_respawn_stone_counts(p.0, p.1, k + 1);
        let r = respawn_stones(tiles, state, k).0;
        assert forall|m: int| k <= m < 6 implies
            stone_tally(tiles, StoneKind::at(m)) <= #[trigger] stone_tally(r, StoneKind::at(m))
            && (stone_tally(tiles, StoneKind::at(m)) < target_count(stone_density_percent(m), n) ==> stone_tally(r, StoneKind::at(m)) <= target_count(stone_density_percent(m), n))
            && (stone_tally(tiles, StoneKind::at(m)) >= target_count(stone_density_percent(m), n) ==> stone_tally(r, StoneKind::at(m)) == stone_tally(tiles, StoneKind::at(m)))
            && (stone_tally(tiles, StoneKind::at(m)) < target_count(stone_density_percent(m), n) ==> stone_tally(r, StoneKind::at(m)) <= stone_tally(tiles, StoneKind::at(m))
                + respawn_attempts((target_count(stone_density_percent(m), n) - stone_tally(tiles, StoneKind::at(m))) as nat)) by {
            if m == k {
                assert(stone_tally(r, kind) == stone_tally(p.0, kind));
            } else {
                assert(stone_tally(p.0, StoneKind::at(m)) == stone_tally(tiles, StoneKind::at(m)));
            }
        }
        assert forall|m: int| 0 <= m < k implies #[trigger] stone_tally(r, StoneKind::at(m)) == stone_tally(tiles, StoneKind::at(m)) by {
            assert(stone_tally(p.0, StoneKind::at(m)) == stone_tally(tiles, StoneKind::at(m)));
        }
    }
}

/// A respawn refill never removes food or stones, and brings a resource that
/// was below its target at most up to that target; a resource at or above its
/// target is left as it was.
pub proof fn law_respawn_bounded(tiles: Seq<Tile>, state: u64)
    ensures
        respawned(tiles, state).0.len() == tiles.len(),
        food_count(tiles) <= food_count(respawned(tiles, state).0),
        food_count(tiles) < target_count(FOOD_DENSITY_PERCENT as nat, tiles.len()) ==> food_count(
            respawned(tiles, state).0,
        ) <= target_count(FOOD_DENSITY_PERCENT as nat, tiles.len()),
        food_count(tiles) >= target_count(FOOD_DENSITY_PERCENT as nat, tiles.len()) ==> food_count(
            respawned(tiles, state).0,
        ) == food_count(tiles),
        forall|m: int|
            0 <= m < 6 ==> stone_tally(tiles, StoneKind::at(m)) <= #[trigger] stone_tally(
                respawned(tiles, state).0,
                StoneKind::at(m),
            ),
        forall|m: int|
            0 <= m < 6 && stone_tally(tiles, StoneKind::at(m)) < target_count(stone_density_percent(m), tiles.len())
                ==> #[trigger] stone_tally(respawned(tiles, state).0, StoneKind::at(m)) <= target_count(
                stone_density_percent(m),
                tiles.len(),
            ),
        forall|m: int|
            0 <= m < 6 && stone_tally(tiles, StoneKind::at(m)) >= target_count(stone_density_percent(m), tiles.len())
                ==> #[trigger] stone_tally(respawned(tiles, state).0, StoneKind::at(m)) == stone_tally(
                tiles,
                StoneKind::at(m),
            ),
        forall|m: int|
            0 <= m < 6 && stone_tally(tiles, StoneKind::at(m)) < target_count(stone_density_percent(m), tiles.len())
                ==> #[trigger] stone_tally(respawned(tiles, state).0, StoneKind::at(m)) <= stone_tally(
                tiles,
                StoneKind::at(m),
            ) + respawn_attempts(
                (target_count(stone_density_percent(m), tiles.len()) - stone_tally(tiles, StoneKind::at(m))) as nat,
            ),
{
    let n = tiles.len();
    let target = target_count(FOOD_DENSITY_PERCENT as nat, n);
    let have = food_count(tiles);
    let f = respawn_food(tiles, state);
    if have < target {
        let sh = shuffled(state, identity_order(n), n - 1);
        lemma_fill_food_counts(tiles, sh.1, respawn_attempts((target - have) as nat));
        assert(f.0 == fill_food(tiles, sh.1, respawn_attempts((target - have) as nat)));
    }
    assert forall|m: int| 0 <= m < 6 implies #[trigger] stone_tally(f.0, StoneKind::at(m)) == stone_tally(tiles, StoneKind::at(m)) by {
        assert forall|j: int| 0 <= j < f.0.len() implies #[trigger] f.0[j].holds(StoneKind::at(m)) == tiles[j].holds(StoneKind::at(m)) by {
            tiles[j].lemma_tile_updates(StoneKind::at(m), true, StoneKind::at(m));
        }
        lemma_stone_tally_same(f.0, tiles, StoneKind::at(m));
    }
    lemma_respawn_stone_counts(f.0, f.1, 0);
}

/// A respawn pass for a resource missing `m` units tries ceil(15% of `m`)
/// placements: at least one, never more than `m`, enough to cover 15% of
/// `m`, and one fewer would not.
pub proof fn law_respawn_attempts(m: nat)
    ensures
        m == 0 ==> respawn_attempts(m) == 0,
        m > 0 ==> 1 <= respawn_attempts(m) <= m,
        m > 0 ==> 100 * respawn_attempts(m) >= 15 * m,
        m > 0 ==> respawn_attempts(m) == 1 || 100 * (respawn_attempts(m) - 1) < 15 * m,
{
}

/// Whether position `i` names a food-free tile of `tiles`.
pub open spec fn free_at(tiles: Seq<Tile>, i: usize) -> bool {
    i < tiles.len() && !tiles[i as int].has_food()
}

/// How many entries of `order` name food-free tiles.
pub open spec fn free_in(tiles: Seq<Tile>, order: Seq<usize>) -> nat
    decreases order.len(),
{
    if order.len() == 0 {
        0
    } else {
        (if free_at(tiles, order[0]) {
            1nat
        } else {
            0nat
        }) + free_in(tiles, order.drop_first())
    }
}

proof fn lemma_free_in_update(tiles: Seq<Tile>, order: Seq<usize>, a: int, v: usize)
    requires
        0 <= a < order.len(),
    ensures
        free_in(tiles, order.update(a, v)) + (if free_at(tiles, order[a]) {
            1int
        } else {
            0int
        }) == free_in(tiles, order) + (if free_at(tiles, v) {
            1int
        } else {
            0int
        }),
    decreases order.len(),
{
    let u = order.update(a, v);
    if a == 0 {
        assert(u.drop_first() =~= order.drop_first());
    } else {
        assert(u.drop_first() =~= order.drop_first().update(a - 1, v));
        lemma_free_in_update(tiles, order.drop_first(), a - 1, v);
    }
}

proof fn lemma_free_in_shuffled(tiles: Seq<Tile>, state: u64, s: Seq<usize>, i: int)
    requires
        i < s.len(),
    ensures
        free_in(tiles, shuffled(state, s, i).1) == free_in(tiles, s),
    decreases i,
{
    if i >= 1 {
        let j = draw_index(state, (i + 1) as usize) as int;
        assert(j < i + 1);
        let s1 = s.update(i, s[j]);
        lemma_free_in_update(tiles, s, i, s[j]);
        lemma_free_in_update(tiles, s1, j, s[i]);
        assert(s1[j] == s[j]);
        lemma_free_in_shuffled(tiles, xorshift(state), swapped(s, i, j), i - 1);
    }
}

proof fn lemma_free_in_push(tiles: Seq<Tile>, order: Seq<usize>, v: usize)
    ensures
        free_in(tiles, order.push(v)) == free_in(tiles, order) + (if free_at(tiles, v) {
            1int
        } else {
            0int
        }),
    decreases order.len(),
{
    if order.len() > 0 {
        assert(order.push(v).drop_first() =~= order.drop_first().push(v));
        assert(order.push(v)[0] == order[0]);
        lemma_free_in_push(tiles, order.drop_first(), v);
    } else {
        assert(order.push(v).drop_first() =~= Seq::<usize>::empty());
        assert(order.push(v)[0] == v);
        assert(free_in(tiles, Seq::<usize>::empty()) == 0);
        assert(free_in(tiles, order) == 0);
    }
}

/// Walking the first `k` tiles in order meets every food-free one among them.
proof fn lemma_free_in_identity(tiles: Seq<Tile>, k: nat)
    requires
        k <= tiles.len() <= usize::MAX,
    ensures
        free_in(tiles, identity_order(k)) + food_count(tiles.take(k as int)) == k,
    decreases k,
{
    if k > 0 {
        lemma_free_in_identity(tiles, (k - 1) as nat);
        assert(identity_order(k) =~= identity_order((k - 1) as nat).push((k - 1) as usize));
        lemma_free_in_push(tiles, identity_order((k - 1) as nat), (k - 1) as usize);
        assert(tiles.take(k as int).drop_last() =~= tiles.take(k - 1));
    } else {
        assert(identity_order(0) =~= Seq::<usize>::empty());
    }
}

/// Changing a tile that `order` does not name leaves the free count along it.
proof fn lemma_free_in_other(tiles: Seq<Tile>, order: Seq<usize>, i: int, t: Tile)
    requires
        0 <= i < tiles.len(),
        forall|k: int| 0 <= k < order.len() ==> #[trigger] order[k] != i,
    ensures
        free_in(tiles.update(i, t), order) == free_in(tiles, order),
    decreases order.len(),
{
    if order.len() > 0 {
        assert(order[0] != i);
        assert forall|k: int| 0 <= k < order.drop_first().len() implies #[trigger] order.drop_first()[k] != i by {
            assert(order.drop_first()[k] == order[k + 1]);
        }
        lemma_free_in_other(tiles, order.drop_first(), i, t);
    }
}

/// Filling food along an order naming distinct positions, at least `target`
/// of them food-free, places exactly `target` units.
proof fn lemma_fill_food_places(tiles: Seq<Tile>, order: Seq<usize>, target: nat)
    requires
        order.no_duplicates(),
        free_in(tiles, order) >= target,
    ensures
        food_count(fill_food(tiles, order, target)) == food_count(tiles) + target,
    decreases order.len(),
{
    if order.len() > 0 && target > 0 {
        let i = order[0] as int;
        let rest = order.drop_first();
        assert(rest.no_duplicates()) by {
            assert forall|a: int, b: int| 0 <= a < rest.len() && 0 <= b < rest.len() && a != b implies rest[a] != rest[b] by {
                assert(rest[a] == order[a + 1] && rest[b] == order[b + 1]);
            }
        }
        if 0 <= i < tiles.len() && !tiles[i].has_food() {
            let t2 = tiles.update(i, tiles[i].with_food(true));
            assert forall|k: int| 0 <= k < rest.len() implies #[trigger] rest[k] != i by {
                assert(rest[k] == order[k + 1]);
                assert(order[k + 1] != order[0]);
            }
            lemma_free_in_other(tiles, rest, i, tiles[i].with_food(true));
            lemma_food_count_update(tiles, i, tiles[i].with_food(true));
            tiles[i].lemma_tile_updates(StoneKind::Jade, true, StoneKind::Jade);
            lemma_fill_food_places(t2, rest, (target - 1) as nat);
        } else {
            lemma_fill_food_places(tiles, rest, target);
        }
    } else if target > 0 {
        assert(free_in(tiles, order) == 0);
    }
}

/// A respawn refill of a map short of food places exactly as many units as
/// the pass tries: ceil(15% of the missing units), at least one and never
/// more than are missing. Writing `placed` for the units added and `missing`
/// for the shortfall below the food target: `placed` is the least whole
/// number of at least one with `100 * placed >= 15 * missing`.
pub proof fn law_respawn_food_placed(tiles: Seq<Tile>, state: u64)
    requires
        tiles.len() <= usize::MAX,
        food_count(tiles) < target_count(FOOD_DENSITY_PERCENT as nat, tiles.len()),
    ensures
        food_count(respawned(tiles, state).0) == food_count(tiles) + respawn_attempts(
            (target_count(FOOD_DENSITY_PERCENT as nat, tiles.len()) - food_count(tiles)) as nat,
        ),
        ({
            let placed = food_count(respawned(tiles, state).0) - food_count(tiles);
            let missing = target_count(FOOD_DENSITY_PERCENT as nat, tiles.len()) - food_count(tiles);
            &&& 1 <= placed <= missing
            &&& 100 * placed >= 15 * missing
            &&& placed == 1 || 100 * (placed - 1) < 15 * missing
        }),
{
    law_respawn_attempts(
        (target_count(FOOD_DENSITY_PERCENT as nat, tiles.len()) - food_count(tiles)) as nat,
    );
    let n = tiles.len();
    let target = target_count(FOOD_DENSITY_PERCENT as nat, n);
    let have = food_count(tiles);
    let attempts = respawn_attempts((target - have) as nat);
    let sh = shuffled(state, identity_order(n), n - 1);
    lemma_pass_order(state, n);
    lemma_free_in_identity(tiles, n);
    assert(tiles.take(n as int) =~= tiles);
    lemma_free_in_shuffled(tiles, state, identity_order(n), n - 1);
    lemma_fill_food_places(tiles, sh.1, attempts);
    let f = respawn_food(tiles, state);
    assert(f.0 == fill_food(tiles, sh.1, attempts));
    lemma_respawn_stone_counts(f.0, f.1, 0);
}

} // verus!
