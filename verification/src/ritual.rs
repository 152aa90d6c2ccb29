//! Evolution ritual (`enchantment`).
//!
//! Requirements match the subject table exactly. Stones are gathered on the
//! square; under the tile rule (at most one of each type), the ritual **pool**
//! is tile presence plus stones in the participants' inventories on that tile.
//! Player counts follow the **table** (level 1→2 needs one player), not the
//! prose "two or more" line.
//!
//! Flow: the starter's `enchantment` begins immediately → all participants get
//! `evolution in progress\n` and `in_ritual`; after 300/t, success yields
//! `current level : K\n` (stones consumed, levels +1). If a multi-player ritual
//! is left with fewer living participants than the table asks mid-flight, it
//! is cancelled and completion replies `ko`.

use vstd::prelude::*;

use crate::player::{first_with_id, lemma_first_with_id, Player, PlayerSet};
use crate::text::{push_decimal, to_owned_string, decimal};
use crate::world::{lemma_stone_index_roundtrip, StoneKind, Tile, World};

verus! {

/// One row of the subject ritual table (from level `from_level` → `from_level+1`).
#[derive(Debug, Clone, Copy, PartialEq, Eq)]
pub struct RitualReq {
    pub from_level: u8,
    pub players: u8,
    /// Counts for jade, peridot, amber, amethyst, garnet, ammolite.
    pub stones: [u8; 6],
}

/// Subject ritual table, one row per level: the level elevated from, the
/// players needed, then the counts of jade, peridot, amber, amethyst, garnet
/// and ammolite.
pub const RITUAL_TABLE: [[u8; 8]; 7] = [
    [1, 1, 1, 0, 0, 0, 0, 0],
    [2, 2, 1, 1, 1, 0, 0, 0],
    [3, 2, 2, 0, 1, 0, 2, 0],
    [4, 4, 1, 1, 2, 0, 1, 0],
    [5, 4, 1, 2, 1, 3, 0, 0],
    [6, 6, 1, 2, 3, 0, 1, 0],
    [7, 6, 2, 2, 2, 2, 2, 1],
];

/// The requirement written in a table row.
pub open spec fn row_req(row: [u8; 8]) -> RitualReq {
    RitualReq {
        from_level: row@[0],
        players: row@[1],
        stones: [row@[2], row@[3], row@[4], row@[5], row@[6], row@[7]],
    }
}

/// The table row for elevating from `level`, if the table has one.
pub open spec fn table_row(level: u8) -> Option<RitualReq> {
    if level == 1 {
        Some(RitualReq { from_level: 1, players: 1, stones: [1, 0, 0, 0, 0, 0] })
    } else if level == 2 {
        Some(RitualReq { from_level: 2, players: 2, stones: [1, 1, 1, 0, 0, 0] })
    } else if level == 3 {
        Some(RitualReq { from_level: 3, players: 2, stones: [2, 0, 1, 0, 2, 0] })
    } else if level == 4 {
        Some(RitualReq { from_level: 4, players: 4, stones: [1, 1, 2, 0, 1, 0] })
    } else if level == 5 {
        Some(RitualReq { from_level: 5, players: 4, stones: [1, 2, 1, 3, 0, 0] })
    } else if level == 6 {
        Some(RitualReq { from_level: 6, players: 6, stones: [1, 2, 3, 0, 1, 0] })
    } else if level == 7 {
        Some(RitualReq { from_level: 7, players: 6, stones: [2, 2, 2, 2, 2, 1] })
    } else {
        None
    }
}

/// Each row elevates from its own level and asks for at least one player
/// and at most three stones of a kind.
pub proof fn lemma_table_rows(level: u8)
    ensures
        table_row(level) matches Some(req) ==> req.from_level == level && req.players >= 1
            && forall|i: int| 0 <= i < 6 ==> #[trigger] req.stones@[i] <= 3,
        table_row(level) is Some <==> 1 <= level <= 7,
{
}

/// The table constant holds the subject table.
proof fn lemma_table_const(i: int)
    requires
        0 <= i < 7,
    ensures
        table_row((i + 1) as u8) == Some(row_req(RITUAL_TABLE@[i])),
        RITUAL_TABLE@[i]@[0] == i + 1,
{
    assert(RITUAL_TABLE@[i]@.len() == 8);
    let r = row_req(RITUAL_TABLE@[i]);
    let t = table_row((i + 1) as u8).unwrap();
    assert(r.stones@ =~= t.stones@);
}

/// Look up requirements for elevating from `level` (1..=7).
pub fn requirements_for(level: u8) -> (r: Option<RitualReq>)
    ensures
        r == table_row(level),
{
    let mut i: usize = 0;
    while i < 7
        invariant
            i <= 7,
            forall|j: int| 0 <= j < i ==> (#[trigger] RITUAL_TABLE@[j])@[0] != level,
        decreases 7 - i,
    {
        let row = RITUAL_TABLE[i];
        proof {
            lemma_table_const(i as int);
        }
        if row[0] == level {
            return Some(RitualReq {
                from_level: row[0],
                players: row[1],
                stones: [row[2], row[3], row[4], row[5], row[6], row[7]],
            });
        }
        i = i + 1;
    }
    proof {
        if 1 <= level <= 7 {
            lemma_table_const(level - 1);
        }
    }
    None
}

/// A ritual in flight, seen as plain values.
pub struct RitualView {
    pub starter_id: u32,
    pub level: u8,
    pub x: u32,
    pub y: u32,
    pub participants: Seq<u32>,
}

/// In-flight enchantment started by one player.
#[derive(Debug, Clone)]
pub struct ActiveRitual {
    pub starter_id: u32,
    pub level: u8,
    pub x: u32,
    pub y: u32,
    pub participants: Vec<u32>,
}

impl View for ActiveRitual {
    type V = RitualView;

    open spec fn view(&self) -> RitualView {
        RitualView {
            starter_id: self.starter_id,
            level: self.level,
            x: self.x,
            y: self.y,
            participants: self.participants@,
        }
    }
}

/// Position of the first ritual in `rs` started by `id`, or `-1`.
pub open spec fn first_with_starter(rs: Seq<RitualView>, id: u32) -> int
    decreases rs.len(),
{
    if rs.len() == 0 {
        -1
    } else if rs[0].starter_id == id {
        0
    } else {
        let r = first_with_starter(rs.drop_first(), id);
        if r < 0 {
            -1
        } else {
            r + 1
        }
    }
}

/// What [`first_with_starter`] finds.
pub proof fn lemma_first_with_starter(rs: Seq<RitualView>, id: u32)
    ensures
        -1 <= first_with_starter(rs, id) < rs.len(),
        first_with_starter(rs, id) >= 0 ==> rs[first_with_starter(rs, id)].starter_id == id,
        forall|j: int|
            0 <= j < rs.len() && (first_with_starter(rs, id) < 0 || j < first_with_starter(rs, id))
                ==> #[trigger] rs[j].starter_id != id,
    decreases rs.len(),
{
    if rs.len() > 0 && rs[0].starter_id != id {
        lemma_first_with_starter(rs.drop_first(), id);
        assert forall|j: int|
            0 <= j < rs.len() && (first_with_starter(rs, id) < 0 || j < first_with_starter(rs, id))
                implies #[trigger] rs[j].starter_id != id by {
            if j > 0 {
                assert(rs[j] == rs.drop_first()[j - 1]);
            }
        }
    }
}

/// Registry of rituals in progress, in order of start.
#[derive(Debug, Default)]
pub struct RitualSet {
    active: Vec<ActiveRitual>,
}

impl RitualSet {
    /// The rituals in flight, in order of start.
    pub closed spec fn rituals(self) -> Seq<RitualView> {
        self.active@.map_values(|r: ActiveRitual| r@)
    }

    /// Every ritual lists each participant once.
    pub open spec fn distinct_participants(self) -> bool {
        forall|i: int| 0 <= i < self.rituals().len() ==> (#[trigger] self.rituals()[i]).participants.no_duplicates()
    }

    /// Every ritual sits on a square of a `w` by `h` map.
    pub open spec fn placed_within(self, w: nat, h: nat) -> bool {
        forall|i: int| 0 <= i < self.rituals().len() ==> (#[trigger] self.rituals()[i]).x < w && self.rituals()[i].y < h
    }

    pub fn new() -> (s: RitualSet)
        ensures
            s.rituals().len() == 0,
            forall|w: nat, h: nat| #[trigger] s.placed_within(w, h),
            s.distinct_participants(),
    {
        RitualSet { active: Vec::new() }
    }

    fn find(&self, starter_id: u32) -> (i: Option<usize>)
        ensures
            match i {
                Some(k) => k == first_with_starter(self.rituals(), starter_id) && k < self.rituals().len(),
                None => first_with_starter(self.rituals(), starter_id) < 0,
            },
    {
        proof {
            lemma_first_with_starter(self.rituals(), starter_id);
        }
        let mut k: usize = 0;
        while k < self.active.len()
            invariant
                k <= self.active@.len(),
                self.rituals().len() == self.active@.len(),
                forall|j: int| 0 <= j < k ==> (#[trigger] self.rituals()[j]).starter_id != starter_id,
                -1 <= first_with_starter(self.rituals(), starter_id) < self.rituals().len(),
                first_with_starter(self.rituals(), starter_id) >= 0 ==> self.rituals()[first_with_starter(
                    self.rituals(),
                    starter_id,
                )].starter_id == starter_id,
            decreases self.active@.len() - k,
        {
            assert(self.rituals()[k as int] == self.active@[k as int]@);
            if self.active[k].starter_id == starter_id {
                proof {
                    lemma_first_with_starter(self.rituals(), starter_id);
                    assert(self.rituals()[k as int].starter_id == starter_id);
                }
                return Some(k);
            }
            k = k + 1;
        }
        None
    }

    pub fn get_by_starter(&self, starter_id: u32) -> (r: Option<&ActiveRitual>)
        ensures
            match r {
                Some(q) => first_with_starter(self.rituals(), starter_id) >= 0
                    && q@ == self.rituals()[first_with_starter(self.rituals(), starter_id)],
                None => first_with_starter(self.rituals(), starter_id) < 0,
            },
    {
        match self.find(starter_id) {
            Some(i) => Some(&self.active[i]),
            None => None,
        }
    }

    /// Start a ritual for `starter_id` if eligible. Marks participants `in_ritual`.
    ///
    /// Returns participant ids (starter first) on success.
    pub fn try_begin(&mut self, starter_id: u32, players: &mut PlayerSet, world: &World) -> (r: Result<Vec<u32>, ()>)
        requires
            old(players).wf(),
            world.wf(),
            old(players).lookup(starter_id) matches Some(p) ==> p.x < world.w() && p.y < world.h(),
        ensures
            final(players).wf(),
            final(players).next() == old(players).next(),
            old(self).placed_within(world.w(), world.h()) ==> final(self).placed_within(world.w(), world.h()),
            old(self).distinct_participants() ==> final(self).distinct_participants(),
            match begin_plan(old(self).rituals(), old(players).members(), *world, starter_id) {
                Some(rit) => r matches Ok(ids) && ids@ == rit.participants && final(self).rituals() == old(
                    self,
                ).rituals().push(rit) && final(players).members() == with_flags(
                    old(players).members(),
                    rit.participants,
                    true,
                ),
                None => r is Err && final(self).rituals() == old(self).rituals() && final(players).members() == old(
                    players,
                ).members(),
            },
    {
        let ghost s = players.members();
        if self.find(starter_id).is_some() {
            return Err(());
        }
        let starter = match players.get(starter_id) {
            Some(p) => p,
            None => {
                return Err(());
            },
        };
        proof {
            lemma_first_with_id(s, starter_id);
        }
        if starter.in_ritual {
            return Err(());
        }
        let level = starter.level;
        let req = match requirements_for(level) {
            Some(q) => q,
            None => {
                return Err(());
            },
        };
        let x = starter.x;
        let y = starter.y;
        let ghost slot = first_with_id(s, starter_id);
        assert(s[slot] == *starter);
        assert(x < world.w() && y < world.h());
        let participants = eligible_on_tile(players, x, y, level);
        let n: usize = req.players as usize;
        if participants.len() < n {
            return Err(());
        }
        if !stones_sufficient(&req, world, players, participants.as_slice(), x, y) {
            return Err(());
        }
        let ghost parts = participants@;
        proof {
            lemma_table_rows(level);
            lemma_eligible_ids(s, x, y, level);
            assert(eligible(s[slot], x, y, level));
            assert(parts.contains(starter_id));
            lemma_others(parts, starter_id);
        }
        let mut chosen: Vec<u32> = Vec::new();
        if holds_id(&participants, starter_id) {
            chosen.push(starter_id);
        }
        assert(parts.take(0) =~= Seq::<u32>::empty());
        assert(chosen@ =~= seq![starter_id] + leading(others(parts.take(0), starter_id), n - 1));
        let mut k: usize = 0;
        while k < participants.len()
            invariant
                k <= parts.len(),
                parts == participants@,
                parts.no_duplicates(),
                n >= 1,
                chosen@ == seq![starter_id] + leading(others(parts.take(k as int), starter_id), n - 1),
            decreases parts.len() - k,
        {
            let id = participants[k];
            let ghost t0 = parts.take(k as int);
            proof {
                broadcast use vstd::seq_lib::lemma_seq_contains_after_push;
                assert(parts.take(k + 1).drop_last() =~= t0);
                assert(parts.take(k + 1).last() == id);
                lemma_others(t0, starter_id);
                if t0.contains(id) {
                    let w = choose|w: int| 0 <= w < t0.len() && t0[w] == id;
                    assert(parts[w] == parts[k as int]);
                }
                if id != starter_id {
                    assert(!chosen@.contains(id)) by {
                        if chosen@.contains(id) {
                            let w = choose|w: int| 0 <= w < chosen@.len() && chosen@[w] == id;
                            assert(w > 0);
                            assert(others(t0, starter_id)[w - 1] == id);
                            assert(others(t0, starter_id).contains(id));
                        }
                    }
                }
            }
            assert(chosen@[0] == starter_id);
            assert(chosen@.contains(starter_id));
            if chosen.len() < n && !holds_id(&chosen, id) {
                assert(id != starter_id);
                assert(others(parts.take(k + 1), starter_id) == others(t0, starter_id).push(id));
                assert(others(t0, starter_id).len() < n - 1);
                chosen.push(id);
                assert(chosen@ =~= seq![starter_id] + leading(others(parts.take(k + 1), starter_id), n - 1));
            } else {
                assert(chosen@ =~= seq![starter_id] + leading(others(parts.take(k + 1), starter_id), n - 1));
            }
            k = k + 1;
        }
        assert(parts.take(k as int) =~= parts);
        if chosen.len() < n {
            return Err(());
        }
        set_ritual_flags(players, chosen.as_slice(), true);
        let kept = chosen.clone();
        assert(kept@ =~= chosen@);
        let ghost before = self.rituals();
        self.active.push(ActiveRitual { starter_id, level, x, y, participants: kept });
        assert(self.rituals() =~= before.push(
            RitualView { starter_id, level, x, y, participants: chosen@ },
        ));
        assert(old(self).placed_within(world.w(), world.h()) ==> self.placed_within(world.w(), world.h())) by {
            if old(self).placed_within(world.w(), world.h()) {
                assert forall|i: int| 0 <= i < self.rituals().len() implies (#[trigger] self.rituals()[i]).x < world.w()
                    && self.rituals()[i].y < world.h() by {
                    if i < before.len() {
                        assert(self.rituals()[i] == before[i]);
                    }
                }
            }
        }
        proof {
            law_begin_participants(old(self).rituals(), *old(players), *world, starter_id);
            assert(chosen@ == chosen_ids(parts, starter_id, req.players as nat));
            assert(begin_plan(old(self).rituals(), old(players).members(), *world, starter_id) == Some(
                RitualView { starter_id, level, x, y, participants: chosen@ },
            ));
            assert(chosen@.no_duplicates());
            if old(self).distinct_participants() {
                assert forall|i: int| 0 <= i < self.rituals().len() implies (#[trigger] self.rituals()[i]).participants.no_duplicates() by {
                    if i < before.len() {
                        assert(self.rituals()[i] == before[i]);
                    }
                }
            }
        }
        Ok(chosen)
    }

    /// Cancel an in-flight ritual started by `starter_id`, if any.
    pub fn cancel_starter(&mut self, starter_id: u32, players: &mut PlayerSet)
        requires
            old(players).wf(),
        ensures
            final(players).wf(),
            final(players).next() == old(players).next(),
            forall|w: nat, h: nat| #[trigger] old(self).placed_within(w, h) ==> final(self).placed_within(w, h),
            old(self).distinct_participants() ==> final(self).distinct_participants(),
            first_with_starter(old(self).rituals(), starter_id) < 0 ==> final(self).rituals() == old(self).rituals()
                && final(players).members() == old(players).members(),
            first_with_starter(old(self).rituals(), starter_id) >= 0 ==> final(self).rituals() == old(
                self,
            ).rituals().remove(first_with_starter(old(self).rituals(), starter_id)) && final(players).members()
                == with_flags(
                old(players).members(),
                old(self).rituals()[first_with_starter(old(self).rituals(), starter_id)].participants,
                false,
            ),
    {
        if let Some(idx) = self.find(starter_id) {
            let ghost before = self.rituals();
            let ritual = self.active.remove(idx);
            assert(self.rituals() =~= before.remove(idx as int));
            assert(ritual@ == before[idx as int]);
            assert forall|w: nat, h: nat| #[trigger] old(self).placed_within(w, h) implies self.placed_within(w, h) by {
                assert forall|i: int| 0 <= i < self.rituals().len() implies (#[trigger] self.rituals()[i]).x < w
                    && self.rituals()[i].y < h by {
                    if i < idx {
                        assert(self.rituals()[i] == before[i]);
                    } else {
                        assert(self.rituals()[i] == before[i + 1]);
                    }
                }
            }
            clear_ritual_flags(players, ritual.participants.as_slice());
        }
    }

    /// Finish the starter's ritual after 300/t. On success levels participants
    /// and returns `(new_level, participant_ids_still_present)`.
    pub fn try_complete(&mut self, starter_id: u32, players: &mut PlayerSet, world: &mut World) -> (r: Result<
        (u8, Vec<u32>),
        (),
    >)
        requires
            old(players).wf(),
            old(world).wf(),
            old(self).placed_within(old(world).w(), old(world).h()),
        ensures
            final(players).wf(),
            final(players).next() == old(players).next(),
            final(world).wf(),
            final(world).w() == old(world).w(),
            final(world).h() == old(world).h(),
            final(world).seed_of() == old(world).seed_of(),
            final(self).placed_within(old(world).w(), old(world).h()),
            old(self).distinct_participants() ==> final(self).distinct_participants(),
            first_with_starter(old(self).rituals(), starter_id) < 0 ==> r is Err && final(self).rituals() == old(
                self,
            ).rituals() && final(players).members() == old(players).members() && final(world).cells() == old(
                world,
            ).cells(),
            first_with_starter(old(self).rituals(), starter_id) >= 0 ==> final(self).rituals() == old(
                self,
            ).rituals().remove(first_with_starter(old(self).rituals(), starter_id)) && completion(
                old(self).rituals()[first_with_starter(old(self).rituals(), starter_id)],
                old(players).members(),
                *old(world),
                outcome(r),
                final(players).members(),
                final(world).cells(),
            ),
    {
        let idx = match self.find(starter_id) {
            Some(i) => i,
            None => {
                return Err(());
            },
        };
        let ghost before = self.rituals();
        let ritual = self.active.remove(idx);
        proof {
            assert(self.rituals() =~= before.remove(idx as int));
            assert(ritual@ == before[idx as int]);
            assert(ritual.x < world.w() && ritual.y < world.h());
            assert forall|i: int| 0 <= i < self.rituals().len() implies (#[trigger] self.rituals()[i]).x < world.w()
                && self.rituals()[i].y < world.h() by {
                if i < idx {
                    assert(self.rituals()[i] == before[i]);
                } else {
                    assert(self.rituals()[i] == before[i + 1]);
                }
            }
        }
        let req = match requirements_for(ritual.level) {
            Some(q) => q,
            None => {
                clear_ritual_flags(players, ritual.participants.as_slice());
                return Err(());
            },
        };
        let still = still_present(players, &ritual.participants, ritual.level, ritual.x, ritual.y);
        if still.len() < req.players as usize {
            clear_ritual_flags(players, ritual.participants.as_slice());
            return Err(());
        }
        if !stones_sufficient(&req, world, players, still.as_slice(), ritual.x, ritual.y) {
            clear_ritual_flags(players, ritual.participants.as_slice());
            return Err(());
        }
        consume_stones(&req, world, players, still.as_slice(), ritual.x, ritual.y);
        let new_level = ritual.level.saturating_add(1);
        raise_levels(players, still.as_slice(), new_level);
        clear_ritual_flags(players, ritual.participants.as_slice());
        Ok((new_level, still))
    }

    /// After a player dies or disconnects: drop them from rituals; cancel a
    /// ritual left with fewer participants than its table row asks.
    pub fn on_player_gone(&mut self, player_id: u32, players: &mut PlayerSet)
        requires
            old(players).wf(),
        ensures
            final(players).wf(),
            final(players).next() == old(players).next(),
            final(self).rituals() == kept_after(old(self).rituals(), player_id),
            forall|w: nat, h: nat| #[trigger] old(self).placed_within(w, h) ==> final(self).placed_within(w, h),
            old(self).distinct_participants() ==> final(self).distinct_participants(),
            final(players).members() == with_flags(
                old(players).members(),
                dropped_after(old(self).rituals(), player_id),
                false,
            ),
    {
        let ghost rs = self.rituals();
        let ghost s0 = players.members();
        let mut kept: Vec<ActiveRitual> = Vec::new();
        proof {
            assert(rs.take(0) =~= Seq::<RitualView>::empty());
            lemma_with_flags_none(s0);
        }
        let mut i: usize = 0;
        while i < self.active.len()
            invariant
                i <= rs.len(),
                rs == self.rituals(),
                rs.len() == self.active@.len(),
                players.wf(),
                players.next() == old(players).next(),
                s0 == old(players).members(),
                kept@.map_values(|r: ActiveRitual| r@) == kept_after(rs.take(i as int), player_id),
                players.members() == with_flags(s0, dropped_after(rs.take(i as int), player_id), false),
            decreases rs.len() - i,
        {
            let r = &self.active[i];
            assert(rs[i as int] == r@);
            assert(rs.take(i + 1).drop_last() =~= rs.take(i as int));
            assert(rs.take(i + 1).last() == r@);
            let parts = without_id(&r.participants, player_id);
            let staffed = match requirements_for(r.level) {
                Some(req) => parts.len() >= req.players as usize,
                None => false,
            };
            if staffed {
                let ghost before = kept@;
                kept.push(ActiveRitual { starter_id: r.starter_id, level: r.level, x: r.x, y: r.y, participants: parts });
                assert(kept@.map_values(|q: ActiveRitual| q@) =~= before.map_values(|q: ActiveRitual| q@).push(
                    without_player(r@, player_id),
                ));
            } else {
                clear_ritual_flags(players, parts.as_slice());
                proof {
                    lemma_with_flags_concat(s0, dropped_after(rs.take(i as int), player_id), parts@);
                }
            }
            i = i + 1;
        }
        assert(rs.take(i as int) =~= rs);
        self.active = kept;
        proof {
            assert forall|w: nat, h: nat| #[trigger] old(self).placed_within(w, h) implies self.placed_within(w, h) by {
                lemma_kept_within(rs, player_id, w, h);
            }
            if old(self).distinct_participants() {
                lemma_kept_distinct(rs, player_id);
            }
        }
    }
}

/// The rituals kept after a departure list each participant once, as before.
proof fn lemma_kept_distinct(rs: Seq<RitualView>, id: u32)
    requires
        forall|i: int| 0 <= i < rs.len() ==> (#[trigger] rs[i]).participants.no_duplicates(),
    ensures
        forall|i: int| 0 <= i < kept_after(rs, id).len() ==> (#[trigger] kept_after(rs, id)[i]).participants.no_duplicates(),
    decreases rs.len(),
{
    if rs.len() > 0 {
        let d = rs.drop_last();
        assert forall|i: int| 0 <= i < d.len() implies (#[trigger] d[i]).participants.no_duplicates() by {
            assert(d[i] == rs[i]);
        }
        lemma_kept_distinct(d, id);
        assert(rs[rs.len() - 1] == rs.last());
        lemma_others(rs.last().participants, id);
        let k = kept_after(rs, id);
        let kd = kept_after(d, id);
        assert forall|i: int| 0 <= i < k.len() implies (#[trigger] k[i]).participants.no_duplicates() by {
            if i < kd.len() {
                assert(k[i] == kd[i]);
            }
        }
    }
}

/// The rituals kept after a departure sit where they sat.
proof fn lemma_kept_within(rs: Seq<RitualView>, id: u32, w: nat, h: nat)
    requires
        forall|i: int| 0 <= i < rs.len() ==> (#[trigger] rs[i]).x < w && rs[i].y < h,
    ensures
        forall|i: int| 0 <= i < kept_after(rs, id).len() ==> (#[trigger] kept_after(rs, id)[i]).x < w && kept_after(
            rs,
            id,
        )[i].y < h,
    decreases rs.len(),
{
    if rs.len() > 0 {
        let d = rs.drop_last();
        assert forall|i: int| 0 <= i < d.len() implies (#[trigger] d[i]).x < w && d[i].y < h by {
            assert(d[i] == rs[i]);
        }
        lemma_kept_within(d, id, w, h);
        let k = kept_after(rs, id);
        let kd = kept_after(d, id);
        assert(rs[rs.len() - 1] == rs.last());
        assert forall|i: int| 0 <= i < k.len() implies (#[trigger] k[i]).x < w && k[i].y < h by {
            if i < kd.len() {
                assert(k[i] == kd[i]);
            }
        }
    }
}

/// `rit` with `id` taken out of its participants.
pub open spec fn without_player(rit: RitualView, id: u32) -> RitualView {
    RitualView { participants: others(rit.participants, id), ..rit }
}

/// Whether a ritual has as many participants as its table row asks.
pub open spec fn staffed(rit: RitualView) -> bool {
    match table_row(rit.level) {
        Some(req) => rit.participants.len() >= req.players,
        None => false,
    }
}

/// The rituals that keep going after `id` leaves, in order.
pub open spec fn kept_after(rs: Seq<RitualView>, id: u32) -> Seq<RitualView>
    decreases rs.len(),
{
    if rs.len() == 0 {
        Seq::empty()
    } else {
        let rest = kept_after(rs.drop_last(), id);
        let r = without_player(rs.last(), id);
        if staffed(r) {
            rest.push(r)
        } else {
            rest
        }
    }
}

/// Participants (without `id`) of the rituals cancelled when `id` leaves.
pub open spec fn dropped_after(rs: Seq<RitualView>, id: u32) -> Seq<u32>
    decreases rs.len(),
{
    if rs.len() == 0 {
        Seq::empty()
    } else {
        let rest = dropped_after(rs.drop_last(), id);
        let r = without_player(rs.last(), id);
        if staffed(r) {
            rest
        } else {
            rest + r.participants
        }
    }
}

/// Clearing no flag changes nothing.
proof fn lemma_with_flags_none(s: Seq<Player>)
    ensures
        with_flags(s, Seq::empty(), false) == s,
{
    assert(with_flags(s, Seq::empty(), false) =~= s);
}

/// Clearing flags for `a`, then for `b`, clears them for `a + b`.
proof fn lemma_with_flags_concat(s: Seq<Player>, a: Seq<u32>, b: Seq<u32>)
    ensures
        with_flags(with_flags(s, a, false), b, false) == with_flags(s, a + b, false),
{
    let l = with_flags(with_flags(s, a, false), b, false);
    let r = with_flags(s, a + b, false);
    assert forall|j: int| 0 <= j < s.len() implies #[trigger] l[j] == r[j] by {
        let v = s[j].id;
        if a.contains(v) {
            let k = choose|k: int| 0 <= k < a.len() && a[k] == v;
            assert((a + b)[k] == v);
        }
        if b.contains(v) {
            let k = choose|k: int| 0 <= k < b.len() && b[k] == v;
            assert((a + b)[a.len() + k] == v);
        }
        if (a + b).contains(v) {
            let k = choose|k: int| 0 <= k < (a + b).len() && (a + b)[k] == v;
            if k < a.len() {
                assert(a[k] == v);
            } else {
                assert(b[k - a.len()] == v);
            }
        }
    }
    assert(l =~= r);
}

/// `v` without `id`, in order.
fn without_id(v: &Vec<u32>, id: u32) -> (w: Vec<u32>)
    ensures
        w@ == others(v@, id),
{
    let mut out: Vec<u32> = Vec::new();
    let mut k: usize = 0;
    while k < v.len()
        invariant
            k <= v@.len(),
            out@ == others(v@.take(k as int), id),
        decreases v@.len() - k,
    {
        assert(v@.take(k + 1).drop_last() =~= v@.take(k as int));
        assert(v@.take(k + 1).last() == v@[k as int]);
        if v[k] != id {
            out.push(v[k]);
        }
        k = k + 1;
    }
    assert(v@.take(k as int) =~= v@);
    out
}

/// The result of completing a ritual, as plain values.
pub open spec fn outcome(r: Result<(u8, Vec<u32>), ()>) -> Option<(u8, Seq<u32>)> {
    match r {
        Ok((lvl, v)) => Some((lvl, v@)),
        Err(_) => None,
    }
}

/// The participants of `ids` still present on `(x, y)` at `level`, in order.
pub open spec fn still_ids(s: Seq<Player>, ids: Seq<u32>, level: u8, x: u32, y: u32) -> Seq<u32>
    decreases ids.len(),
{
    if ids.len() == 0 {
        Seq::empty()
    } else {
        let rest = still_ids(s, ids.drop_last(), level, x, y);
        let j = first_with_id(s, ids.last());
        if j >= 0 && s[j].level == level && s[j].x == x && s[j].y == y {
            rest.push(ids.last())
        } else {
            rest
        }
    }
}

/// `s` with every player whose id is in `ids` raised to `level` and out of ritual.
pub open spec fn leveled(s: Seq<Player>, ids: Seq<u32>, level: u8) -> Seq<Player> {
    Seq::new(
        s.len(),
        |j: int|
            if ids.contains(s[j].id) {
                Player { level, in_ritual: false, ..s[j] }
            } else {
                s[j]
            },
    )
}

/// Level reached by a ritual from `level`.
pub open spec fn next_level(level: u8) -> u8 {
    if level == 255 {
        255
    } else {
        (level + 1) as u8
    }
}

/// Whether ritual `rit` succeeds on players `s` with its square holding `tile`:
/// the table has a row for its level, enough participants are still there,
/// and the pool holds every stone the row asks for.
pub open spec fn completes(rit: RitualView, s: Seq<Player>, tile: Tile) -> bool {
    match table_row(rit.level) {
        None => false,
        Some(req) => {
            let still = still_ids(s, rit.participants, rit.level, rit.x, rit.y);
            still.len() >= req.players && sufficient(req, tile, s, still)
        },
    }
}

/// What completing ritual `rit` does, from players `s` on `world`: `out` is
/// the result, `s1` the players after and `cells1` the tiles after.
pub open spec fn completion(
    rit: RitualView,
    s: Seq<Player>,
    world: World,
    out: Option<(u8, Seq<u32>)>,
    s1: Seq<Player>,
    cells1: Seq<Tile>,
) -> bool {
    let tile = world.tile_at(rit.x as int, rit.y as int);
    if completes(rit, s, tile) {
        let req = table_row(rit.level).unwrap();
        let still = still_ids(s, rit.participants, rit.level, rit.x, rit.y);
        let c = consumed_from(tile, s, still, req, 0);
        let lvl = next_level(rit.level);
        &&& out == Some((lvl, still))
        &&& cells1 == world.cells().update(rit.y * world.w() + rit.x, c.0)
        &&& s1 == with_flags(leveled(c.1, still, lvl), rit.participants, false)
    } else {
        &&& out.is_none()
        &&& cells1 == world.cells()
        &&& s1 == with_flags(s, rit.participants, false)
    }
}

/// Participants still alive, at the ritual's level and on its square.
fn still_present(players: &PlayerSet, ids: &Vec<u32>, level: u8, x: u32, y: u32) -> (v: Vec<u32>)
    requires
        players.wf(),
    ensures
        v@ == still_ids(players.members(), ids@, level, x, y),
{
    let mut out: Vec<u32> = Vec::new();
    let mut k: usize = 0;
    while k < ids.len()
        invariant
            k <= ids@.len(),
            players.wf(),
            out@ == still_ids(players.members(), ids@.take(k as int), level, x, y),
        decreases ids@.len() - k,
    {
        let id = ids[k];
        assert(ids@.take(k + 1).drop_last() =~= ids@.take(k as int));
        assert(ids@.take(k + 1).last() == id);
        proof {
            lemma_first_with_id(players.members(), id);
        }
        match players.get(id) {
            Some(p) => {
                if p.level == level && p.x == x && p.y == y {
                    out.push(id);
                }
            },
            None => {},
        }
        k = k + 1;
    }
    assert(ids@.take(k as int) =~= ids@);
    out
}

fn raise_levels(players: &mut PlayerSet, ids: &[u32], level: u8)
    requires
        old(players).wf(),
    ensures
        final(players).wf(),
        final(players).next() == old(players).next(),
        final(players).members() == leveled(old(players).members(), ids@, level),
{
    let ghost s0 = players.members();
    assert(leveled(s0, ids@.take(0), level) =~= s0);
    let mut k: usize = 0;
    while k < ids.len()
        invariant
            k <= ids@.len(),
            players.wf(),
            players.next() == old(players).next(),
            s0 == old(players).members(),
            players.members() == leveled(s0, ids@.take(k as int), level),
        decreases ids@.len() - k,
    {
        let id = ids[k];
        let ghost cur = players.members();
        assert(ids@.take(k + 1) =~= ids@.take(k as int).push(id));
        proof {
            lemma_first_with_id(cur, id);
        }
        match players.get_mut(id) {
            Some(p) => {
                p.level = level;
                p.in_ritual = false;
            },
            None => {},
        }
        proof {
            broadcast use vstd::seq_lib::lemma_seq_contains_after_push;
            let nxt = leveled(s0, ids@.take(k + 1), level);
            let slot = first_with_id(cur, id);
            assert forall|j: int| 0 <= j < cur.len() implies #[trigger] players.members()[j] == nxt[j] by {
                assert(cur[j].id == s0[j].id);
                if j == slot {
                    assert(ids@.take(k + 1).contains(id));
                } else {
                    if slot >= 0 {
                        assert(cur[j].id != cur[slot].id);
                    }
                    assert(cur[j].id != id);
                    assert(ids@.take(k + 1).contains(s0[j].id) == ids@.take(k as int).contains(s0[j].id));
                }
            }
            assert(players.members() =~= nxt);
            assert forall|a: int, b: int| 0 <= a < b < players.members().len() implies #[trigger] players.members()[a].id
                != #[trigger] players.members()[b].id by {
                assert(players.members()[a].id == cur[a].id);
                assert(players.members()[b].id == cur[b].id);
            }
        }
        k = k + 1;
    }
    assert(ids@.take(k as int) =~= ids@);
}

/// Whether `p` stands on `(x, y)` at `level` and is free to join a ritual.
pub open spec fn eligible(p: Player, x: u32, y: u32, level: u8) -> bool {
    p.x == x && p.y == y && p.level == level && !p.in_ritual
}

/// Ids of the players of `s` eligible on `(x, y)` at `level`, in order.
pub open spec fn eligible_ids(s: Seq<Player>, x: u32, y: u32, level: u8) -> Seq<u32>
    decreases s.len(),
{
    if s.len() == 0 {
        Seq::empty()
    } else {
        let rest = eligible_ids(s.drop_last(), x, y, level);
        if eligible(s.last(), x, y, level) {
            rest.push(s.last().id)
        } else {
            rest
        }
    }
}

/// The eligible ids are ids of eligible players, all of them, each once when ids are distinct.
pub proof fn lemma_eligible_ids(s: Seq<Player>, x: u32, y: u32, level: u8)
    ensures
        forall|v: u32|
            #[trigger] eligible_ids(s, x, y, level).contains(v) ==> exists|j: int|
                0 <= j < s.len() && (#[trigger] s[j]).id == v && eligible(s[j], x, y, level),
        forall|j: int|
            0 <= j < s.len() && eligible(#[trigger] s[j], x, y, level) ==> eligible_ids(s, x, y, level).contains(
                s[j].id,
            ),
        (forall|i: int, j: int| 0 <= i < j < s.len() ==> #[trigger] s[i].id != #[trigger] s[j].id)
            ==> eligible_ids(s, x, y, level).no_duplicates(),
    decreases s.len(),
{
    if s.len() > 0 {
        let d = s.drop_last();
        let r = eligible_ids(d, x, y, level);
        let e = eligible_ids(s, x, y, level);
        lemma_eligible_ids(d, x, y, level);
        assert forall|v: u32| #[trigger] e.contains(v) implies exists|j: int|
            0 <= j < s.len() && (#[trigger] s[j]).id == v && eligible(s[j], x, y, level) by {
            if r.contains(v) {
                let j = choose|j: int| 0 <= j < d.len() && (#[trigger] d[j]).id == v && eligible(d[j], x, y, level);
                assert(s[j] == d[j]);
            } else {
                let k = choose|k: int| 0 <= k < e.len() && e[k] == v;
                assert(e != r);
                assert(k == r.len());
                assert(s[s.len() - 1].id == v);
            }
        }
        assert forall|j: int| 0 <= j < s.len() && eligible(#[trigger] s[j], x, y, level) implies e.contains(s[j].id) by {
            if j < s.len() - 1 {
                assert(d[j] == s[j]);
                let k = choose|k: int| 0 <= k < r.len() && r[k] == s[j].id;
                if eligible(s.last(), x, y, level) {
                    assert(e[k] == s[j].id);
                }
            } else {
                assert(e[e.len() - 1] == s[j].id);
            }
        }
        if forall|i: int, j: int| 0 <= i < j < s.len() ==> #[trigger] s[i].id != #[trigger] s[j].id {
            assert forall|i: int, j: int| 0 <= i < j < d.len() implies #[trigger] d[i].id != #[trigger] d[j].id by {
                assert(d[i] == s[i] && d[j] == s[j]);
            }
            if eligible(s.last(), x, y, level) {
                if r.contains(s.last().id) {
                    let j = choose|j: int| 0 <= j < d.len() && (#[trigger] d[j]).id == s.last().id && eligible(d[j], x, y, level);
                    assert(s[j] == d[j]);
                    assert(s[j].id != s[s.len() - 1].id);
                }
                assert forall|i: int, j: int| 0 <= i < e.len() && 0 <= j < e.len() && i != j implies e[i] != e[j] by {
                    if i < r.len() && j < r.len() {
                    } else if i == r.len() {
                        assert(r[j] == e[j]);
                        assert(r.contains(e[j]));
                    } else {
                        assert(r[i] == e[i]);
                        assert(r.contains(e[i]));
                    }
                }
            }
        }
    }
}

/// Players on `(x,y)` at `level` (any team), not already in a ritual.
pub fn eligible_on_tile(players: &PlayerSet, x: u32, y: u32, level: u8) -> (v: Vec<u32>)
    ensures
        v@ == eligible_ids(players.members(), x, y, level),
{
    let ps = players.iter();
    let mut out: Vec<u32> = Vec::new();
    let mut i: usize = 0;
    while i < ps.len()
        invariant
            i <= ps@.len(),
            ps@ == players.members(),
            out@ == eligible_ids(ps@.subrange(0, i as int), x, y, level),
        decreases ps@.len() - i,
    {
        assert(ps@.subrange(0, i + 1).drop_last() =~= ps@.subrange(0, i as int));
        let p = &ps[i];
        if p.x == x && p.y == y && p.level == level && !p.in_ritual {
            out.push(p.id);
        }
        i = i + 1;
    }
    assert(ps@.subrange(0, i as int) =~= ps@);
    out
}

/// Stones of `kind` carried by the player with id `id` in `s` (none if absent).
pub open spec fn carried(s: Seq<Player>, id: u32, kind: StoneKind) -> nat {
    let j = first_with_id(s, id);
    if j >= 0 {
        s[j].inventory.count(kind) as nat
    } else {
        0
    }
}

/// Stones of `kind` carried by the players with ids `ids`, one term per entry.
pub open spec fn carried_total(s: Seq<Player>, ids: Seq<u32>, kind: StoneKind) -> nat
    decreases ids.len(),
{
    if ids.len() == 0 {
        0
    } else {
        carried(s, ids[0], kind) + carried_total(s, ids.drop_first(), kind)
    }
}

/// Ritual pool of `kind`: the tile's stone plus what the participants carry.
pub open spec fn pool_count(tile: Tile, s: Seq<Player>, ids: Seq<u32>, kind: StoneKind) -> nat {
    (if tile.holds(kind) {
        1nat
    } else {
        0nat
    }) + carried_total(s, ids, kind)
}

/// Whether the pool covers every stone that `req` asks for.
pub open spec fn sufficient(req: RitualReq, tile: Tile, s: Seq<Player>, ids: Seq<u32>) -> bool {
    forall|i: int|
        0 <= i < 6 ==> #[trigger] req.stones@[i] == 0 || pool_count(tile, s, ids, StoneKind::at(i)) >= req.stones@[i]
}

/// `v` as a `u32`, saturating at `u32::MAX`.
pub open spec fn capped(v: int) -> u32 {
    if v > u32::MAX {
        u32::MAX
    } else {
        v as u32
    }
}

proof fn lemma_capped_add(v: int, c: int)
    requires
        v >= 0,
        c >= 0,
    ensures
        capped(capped(v) + c) == capped(v + c),
{
}

fn stone_count_in_pool(
    kind: StoneKind,
    world: &World,
    players: &PlayerSet,
    participants: &[u32],
    x: u32,
    y: u32,
) -> (n: u32)
    requires
        players.wf(),
        world.wf(),
        x < world.w(),
        y < world.h(),
    ensures
        n == capped(pool_count(world.tile_at(x as int, y as int), players.members(), participants@, kind) as int),
{
    let ghost s = players.members();
    let ghost ids = participants@;
    let ghost base: int = if world.tile_at(x as int, y as int).holds(kind) {
        1
    } else {
        0
    };
    let mut n: u32 = if world.tile(x, y).has_stone(kind) {
        1
    } else {
        0
    };
    assert(ids.skip(0) =~= ids);
    let mut i: usize = 0;
    while i < participants.len()
        invariant
            i <= ids.len(),
            ids == participants@,
            s == players.members(),
            players.wf(),
            base == (if world.tile_at(x as int, y as int).holds(kind) {
                1int
            } else {
                0int
            }),
            n == capped(base + carried_total(s, ids, kind) - carried_total(s, ids.skip(i as int), kind)),
            carried_total(s, ids.skip(i as int), kind) <= carried_total(s, ids, kind),
        decreases ids.len() - i,
    {
        assert(ids.skip(i as int).drop_first() =~= ids.skip(i + 1));
        let id = participants[i];
        assert(carried_total(s, ids.skip(i as int), kind) == carried(s, id, kind) + carried_total(s, ids.skip(i + 1), kind));
        match players.get(id) {
            Some(p) => {
                let c = p.inventory.stone(kind);
                assert(c == carried(s, id, kind));
                let ghost before = n;
                n = n.saturating_add(c);
                proof {
                    lemma_capped_add(base + carried_total(s, ids, kind) - carried_total(s, ids.skip(i as int), kind), c as int);
                }
            },
            None => {
                assert(carried(s, id, kind) == 0);
            },
        }
        i = i + 1;
    }
    assert(ids.skip(i as int) =~= Seq::<u32>::empty());
    n
}

fn stones_sufficient(
    req: &RitualReq,
    world: &World,
    players: &PlayerSet,
    participants: &[u32],
    x: u32,
    y: u32,
) -> (b: bool)
    requires
        players.wf(),
        world.wf(),
        x < world.w(),
        y < world.h(),
    ensures
        b == sufficient(*req, world.tile_at(x as int, y as int), players.members(), participants@),
{
    let ghost tile = world.tile_at(x as int, y as int);
    let mut i: usize = 0;
    while i < 6
        invariant
            i <= 6,
            world.wf(),
            players.wf(),
            x < world.w(),
            y < world.h(),
            tile == world.tile_at(x as int, y as int),
            forall|j: int|
                0 <= j < i ==> #[trigger] req.stones@[j] == 0 || pool_count(tile, players.members(), participants@, StoneKind::at(j))
                    >= req.stones@[j],
        decreases 6 - i,
    {
        let need = req.stones[i];
        if need != 0 {
            let kind = StoneKind::from_index(i).unwrap();
            if stone_count_in_pool(kind, world, players, participants, x, y) < need as u32 {
                assert(!(req.stones@[i as int] == 0 || pool_count(tile, players.members(), participants@, StoneKind::at(i as int))
                    >= req.stones@[i as int]));
                return false;
            }
        }
        i = i + 1;
    }
    true
}

/// `p` with its count of `kind` set to `n`.
pub open spec fn with_stone_count(p: Player, kind: StoneKind, n: u32) -> Player {
    Player { inventory: p.inventory.with_count(kind, n), ..p }
}

/// What setting a count twice, or reading it back, gives.
proof fn lemma_with_count(p: Player, kind: StoneKind, a: u32, b: u32, other: StoneKind)
    ensures
        with_stone_count(with_stone_count(p, kind, a), kind, b) == with_stone_count(p, kind, b),
        with_stone_count(p, kind, a).inventory.count(kind) == a,
        other != kind ==> with_stone_count(p, kind, a).inventory.count(other) == p.inventory.count(other),
        with_stone_count(p, kind, p.inventory.count(kind)) == p,
        with_stone_count(p, kind, a).id == p.id,
{
}

/// `a` and `b` hold players with the same ids at the same positions.
pub open spec fn same_ids(a: Seq<Player>, b: Seq<Player>) -> bool {
    a.len() == b.len() && forall|j: int| 0 <= j < a.len() ==> #[trigger] a[j].id == b[j].id
}

/// Players with the same ids are found at the same positions.
proof fn lemma_same_ids(a: Seq<Player>, b: Seq<Player>, id: u32)
    requires
        same_ids(a, b),
    ensures
        first_with_id(a, id) == first_with_id(b, id),
    decreases a.len(),
{
    if a.len() > 0 {
        assert(a[0].id == b[0].id);
        assert forall|j: int| 0 <= j < a.drop_first().len() implies #[trigger] a.drop_first()[j].id == b.drop_first()[j].id by {
            assert(a[j + 1].id == b[j + 1].id);
        }
        lemma_same_ids(a.drop_first(), b.drop_first(), id);
    }
}

/// Drawing up to `left` stones of `kind` from the players with ids `ids`, in
/// order, each giving what it can; gives the players after and how many are
/// still missing.
pub open spec fn draw_from(s: Seq<Player>, ids: Seq<u32>, kind: StoneKind, left: nat) -> (Seq<Player>, nat)
    decreases ids.len(),
{
    if ids.len() == 0 || left == 0 {
        (s, left)
    } else {
        let j = first_with_id(s, ids[0]);
        if j >= 0 {
            let have = s[j].inventory.count(kind) as nat;
            let take = if have < left {
                have
            } else {
                left
            };
            draw_from(
                s.update(j, with_stone_count(s[j], kind, (have - take) as u32)),
                ids.drop_first(),
                kind,
                (left - take) as nat,
            )
        } else {
            draw_from(s, ids.drop_first(), kind, left)
        }
    }
}

/// Consuming what `req` asks for, kinds `i` and on: for each kind the tile
/// gives its stone first, then the participants `ids` in order.
pub open spec fn consumed_from(tile: Tile, s: Seq<Player>, ids: Seq<u32>, req: RitualReq, i: int) -> (Tile, Seq<Player>)
    decreases 6 - i,
{
    if i < 0 || i >= 6 {
        (tile, s)
    } else {
        let need = req.stones@[i] as nat;
        let k = StoneKind::at(i);
        if need == 0 {
            consumed_from(tile, s, ids, req, i + 1)
        } else {
            let left: nat = if tile.holds(k) {
                (need - 1) as nat
            } else {
                need
            };
            consumed_from(tile.with_stone(k, false), draw_from(s, ids, k, left).0, ids, req, i + 1)
        }
    }
}

/// Take up to `left` stones of `kind` from the players `ids`, in order;
/// returns how many are still missing.
fn draw_stones(players: &mut PlayerSet, ids: &[u32], kind: StoneKind, left: u32) -> (rest: u32)
    requires
        old(players).wf(),
    ensures
        final(players).wf(),
        final(players).next() == old(players).next(),
        same_ids(final(players).members(), old(players).members()),
        final(players).members() == draw_from(old(players).members(), ids@, kind, left as nat).0,
        rest == draw_from(old(players).members(), ids@, kind, left as nat).1,
{
    let ghost s0 = players.members();
    let mut left = left;
    let ghost goal = draw_from(s0, ids@, kind, left as nat);
    assert(ids@.skip(0) =~= ids@);
    let mut k: usize = 0;
    while k < ids.len()
        invariant
            k <= ids@.len(),
            players.wf(),
            players.next() == old(players).next(),
            s0 == old(players).members(),
            same_ids(players.members(), s0),
            goal == draw_from(players.members(), ids@.skip(k as int), kind, left as nat),
        ensures
            k >= ids@.len() || left == 0,
            players.wf(),
            players.next() == old(players).next(),
            same_ids(players.members(), s0),
            goal == draw_from(players.members(), ids@.skip(k as int), kind, left as nat),
        decreases ids@.len() - k,
    {
        if left == 0 {
            break;
        }
        let id = ids[k];
        let ghost cur = players.members();
        let ghost j = first_with_id(cur, id);
        let ghost left_k = left;
        proof {
            lemma_first_with_id(cur, id);
            assert(ids@.skip(k as int).drop_first() =~= ids@.skip(k + 1));
            assert(ids@.skip(k as int)[0] == id);
        }
        let mut avail: u32 = match players.get(id) {
            Some(p) => p.inventory.stone(kind),
            None => 0,
        };
        let ghost have = avail;
        while left > 0 && avail > 0
            invariant
                players.wf(),
                players.next() == old(players).next(),
                same_ids(cur, s0),
                same_ids(players.members(), cur),
                j == first_with_id(cur, id),
                -1 <= j < cur.len(),
                j >= 0 ==> cur[j].id == id && have == cur[j].inventory.count(kind),
                j >= 0 ==> players.members() == cur.update(j, with_stone_count(cur[j], kind, avail)),
                j < 0 ==> players.members() == cur && have == 0,
                avail <= have,
                left <= left_k,
                have - avail == left_k - left,
            decreases left,
        {
            let ghost before = players.members();
            proof {
                lemma_same_ids(before, cur, id);
                lemma_with_count(cur[j], kind, avail, (avail - 1) as u32, kind);
            }
            match players.get_mut(id) {
                Some(p) => {
                    let _ = p.inventory.take_stone(kind);
                },
                None => {},
            }
            proof {
                assert(players.members() =~= cur.update(j, with_stone_count(cur[j], kind, (avail - 1) as u32)));
                assert forall|a: int| 0 <= a < cur.len() implies #[trigger] players.members()[a].id == cur[a].id by {
                    if a == j {
                        lemma_with_count(cur[j], kind, (avail - 1) as u32, 0, kind);
                    }
                }
                assert forall|a: int, b: int| 0 <= a < b < players.members().len() implies #[trigger] players.members()[a].id
                    != #[trigger] players.members()[b].id by {
                    assert(players.members()[a].id == before[a].id);
                    assert(players.members()[b].id == before[b].id);
                }
            }
            left = left - 1;
            avail = avail - 1;
        }
        proof {
            if j >= 0 {
                lemma_with_count(cur[j], kind, avail, 0, kind);
            } else {
                assert(players.members() == cur);
            }
            assert forall|a: int| 0 <= a < s0.len() implies #[trigger] players.members()[a].id == s0[a].id by {
                assert(players.members()[a].id == cur[a].id);
            }
        }
        k = k + 1;
    }
    proof {
        if k >= ids@.len() {
            assert(ids@.skip(k as int) =~= Seq::<u32>::empty());
        }
    }
    left
}

fn consume_stones(
    req: &RitualReq,
    world: &mut World,
    players: &mut PlayerSet,
    participants: &[u32],
    x: u32,
    y: u32,
)
    requires
        old(world).wf(),
        x < old(world).w(),
        y < old(world).h(),
        old(players).wf(),
    ensures
        final(world).wf(),
        final(world).w() == old(world).w(),
        final(world).h() == old(world).h(),
        final(world).seed_of() == old(world).seed_of(),
        final(world).cells() == old(world).cells().update(
            y * old(world).w() + x,
            consumed_from(old(world).tile_at(x as int, y as int), old(players).members(), participants@, *req, 0).0,
        ),
        final(players).members() == consumed_from(
            old(world).tile_at(x as int, y as int),
            old(players).members(),
            participants@,
            *req,
            0,
        ).1,
        final(players).wf(),
        final(players).next() == old(players).next(),
        same_ids(final(players).members(), old(players).members()),
{
    let ghost t0 = world.tile_at(x as int, y as int);
    let ghost s0 = players.members();
    let ghost ids = participants@;
    let ghost idx = y * world.w() + x;
    let ghost c0 = world.cells();
    let ghost goal = consumed_from(t0, s0, ids, *req, 0);
    proof {
        world.lemma_cell_index(x as int, y as int);
        assert(c0.update(idx, t0) =~= c0);
    }
    let mut i: usize = 0;
    while i < 6
        invariant
            i <= 6,
            world.wf(),
            world.w() == old(world).w(),
            world.h() == old(world).h(),
            world.seed_of() == old(world).seed_of(),
            x < world.w(),
            y < world.h(),
            idx == y * world.w() + x,
            0 <= idx < c0.len(),
            c0 == old(world).cells(),
            world.cells() == c0.update(idx, world.tile_at(x as int, y as int)),
            players.wf(),
            players.next() == old(players).next(),
            s0 == old(players).members(),
            same_ids(players.members(), s0),
            ids == participants@,
            goal == consumed_from(world.tile_at(x as int, y as int), players.members(), ids, *req, i as int),
        decreases 6 - i,
    {
        let need = req.stones[i];
        if need != 0 {
            let kind = StoneKind::from_index(i).unwrap();
            let ghost tile_before = world.tile_at(x as int, y as int);
            let mut left: u32 = need as u32;
            if left > 0 && world.tile(x, y).has_stone(kind) {
                let _ = world.tile_mut(x, y).take_stone(kind);
                left = left - 1;
                assert(world.cells() =~= c0.update(idx, tile_before.with_stone(kind, false)));
            } else {
                proof {
                    tile_before.lemma_tile_updates(kind, false, kind);
                }
            }
            assert(world.tile_at(x as int, y as int) == tile_before.with_stone(kind, false));
            let ghost s_before = players.members();
            let _ = draw_stones(players, participants, kind, left);
            proof {
                assert forall|a: int| 0 <= a < s0.len() implies #[trigger] players.members()[a].id == s0[a].id by {
                    assert(players.members()[a].id == s_before[a].id);
                }
            }
        }
        i = i + 1;
    }
}

/// `parts` without `v`, in order.
pub open spec fn others(parts: Seq<u32>, v: u32) -> Seq<u32>
    decreases parts.len(),
{
    if parts.len() == 0 {
        Seq::empty()
    } else {
        let rest = others(parts.drop_last(), v);
        if parts.last() == v {
            rest
        } else {
            rest.push(parts.last())
        }
    }
}

/// What [`others`] keeps.
proof fn lemma_others(parts: Seq<u32>, v: u32)
    ensures
        forall|w: u32| #[trigger] others(parts, v).contains(w) ==> parts.contains(w) && w != v,
        !parts.contains(v) ==> others(parts, v) == parts,
        parts.no_duplicates() ==> others(parts, v).no_duplicates(),
        parts.no_duplicates() && parts.contains(v) ==> others(parts, v).len() == parts.len() - 1,
    decreases parts.len(),
{
    broadcast use vstd::seq_lib::lemma_seq_contains_after_push;
    if parts.len() > 0 {
        let d = parts.drop_last();
        lemma_others(d, v);
        assert(d.push(parts.last()) =~= parts);
        let o = others(parts, v);
        let od = others(d, v);
        assert forall|w: u32| #[trigger] o.contains(w) implies parts.contains(w) && w != v by {
            if od.contains(w) {
                let k = choose|k: int| 0 <= k < d.len() && d[k] == w;
                assert(parts[k] == w);
            } else {
                assert(parts[parts.len() - 1] == w);
            }
        }
        if !parts.contains(v) {
            if d.contains(v) {
                let k = choose|k: int| 0 <= k < d.len() && d[k] == v;
                assert(parts[k] == v);
            }
        }
        if parts.no_duplicates() {
            assert(d.no_duplicates()) by {
                assert forall|i: int, j: int| 0 <= i < d.len() && 0 <= j < d.len() && i != j implies d[i] != d[j] by {
                    assert(d[i] == parts[i] && d[j] == parts[j]);
                }
            }
            if parts.last() != v {
                assert(!od.contains(parts.last())) by {
                    if od.contains(parts.last()) {
                        let k = choose|k: int| 0 <= k < d.len() && d[k] == parts.last();
                        assert(parts[k] == parts[parts.len() - 1]);
                    }
                }
                assert forall|i: int, j: int| 0 <= i < o.len() && 0 <= j < o.len() && i != j implies o[i] != o[j] by {
                    if i < od.len() && j < od.len() {
                    } else if i == od.len() {
                        assert(od[j] == o[j]);
                        assert(od.contains(o[j]));
                    } else {
                        assert(od[i] == o[i]);
                        assert(od.contains(o[i]));
                    }
                }
            }
            if parts.contains(v) {
                if parts.last() == v {
                    assert(!d.contains(v)) by {
                        if d.contains(v) {
                            let k = choose|k: int| 0 <= k < d.len() && d[k] == v;
                            assert(parts[k] == parts[parts.len() - 1]);
                        }
                    }
                } else {
                    let k = choose|k: int| 0 <= k < parts.len() && parts[k] == v;
                    assert(d[k] == v);
                }
            }
        }
    }
}

/// The participants of a ritual started by `starter`: the starter, then the
/// first `n - 1` other eligible players `parts`, in order.
pub open spec fn chosen_ids(parts: Seq<u32>, starter: u32, n: nat) -> Seq<u32> {
    seq![starter] + leading(others(parts, starter), n - 1)
}

/// The first `m` entries of `s`, or all of them when `s` is shorter.
pub open spec fn leading(s: Seq<u32>, m: int) -> Seq<u32> {
    if m >= s.len() {
        s
    } else {
        s.take(m)
    }
}

/// The ritual that starting one for `starter` would register, or `None` when
/// it cannot begin: a ritual of this starter is already in flight, the
/// starter is unknown or already in a ritual, the table has no row for its
/// level, fewer eligible players than the row asks stand on its square, or
/// the pool lacks a stone the row asks for.
pub open spec fn begin_plan(rs: Seq<RitualView>, s: Seq<Player>, world: World, starter: u32) -> Option<RitualView> {
    let j = first_with_id(s, starter);
    if first_with_starter(rs, starter) >= 0 || j < 0 || s[j].in_ritual {
        None
    } else {
        let p = s[j];
        match table_row(p.level) {
            None => None,
            Some(req) => {
                let parts = eligible_ids(s, p.x, p.y, p.level);
                if parts.len() < req.players || !sufficient(req, world.tile_at(p.x as int, p.y as int), s, parts) {
                    None
                } else {
                    Some(
                        RitualView {
                            starter_id: starter,
                            level: p.level,
                            x: p.x,
                            y: p.y,
                            participants: chosen_ids(parts, starter, req.players as nat),
                        },
                    )
                }
            },
        }
    }
}

/// Whether `v` holds `id`.
fn holds_id(v: &Vec<u32>, id: u32) -> (b: bool)
    ensures
        b == v@.contains(id),
{
    let mut k: usize = 0;
    while k < v.len()
        invariant
            k <= v@.len(),
            forall|j: int| 0 <= j < k ==> v@[j] != id,
        decreases v@.len() - k,
    {
        if v[k] == id {
            return true;
        }
        k = k + 1;
    }
    false
}

/// `s` with the `in_ritual` flag of every player whose id is in `ids` set to `flag`.
pub open spec fn with_flags(s: Seq<Player>, ids: Seq<u32>, flag: bool) -> Seq<Player> {
    Seq::new(s.len(), |j: int| if ids.contains(s[j].id) { Player { in_ritual: flag, ..s[j] } } else { s[j] })
}

fn set_ritual_flags(players: &mut PlayerSet, ids: &[u32], flag: bool)
    requires
        old(players).wf(),
    ensures
        final(players).wf(),
        final(players).next() == old(players).next(),
        final(players).members() == with_flags(old(players).members(), ids@, flag),
{
    let ghost s0 = players.members();
    assert(with_flags(s0, ids@.take(0), flag) =~= s0);
    let mut k: usize = 0;
    while k < ids.len()
        invariant
            k <= ids@.len(),
            players.wf(),
            players.next() == old(players).next(),
            s0 == old(players).members(),
            players.members() == with_flags(s0, ids@.take(k as int), flag),
        decreases ids@.len() - k,
    {
        let id = ids[k];
        let ghost cur = players.members();
        assert(ids@.take(k + 1) =~= ids@.take(k as int).push(id));
        proof {
            lemma_first_with_id(cur, id);
        }
        match players.get_mut(id) {
            Some(p) => {
                p.in_ritual = flag;
            },
            None => {},
        }
        proof {
            broadcast use vstd::seq_lib::lemma_seq_contains_after_push;
            let nxt = with_flags(s0, ids@.take(k + 1), flag);
            let slot = first_with_id(cur, id);
            assert forall|j: int| 0 <= j < cur.len() implies #[trigger] players.members()[j] == nxt[j] by {
                assert(cur[j].id == s0[j].id);
                if j == slot {
                    assert(ids@.take(k + 1).contains(id));
                } else {
                    if slot >= 0 {
                        assert(cur[j].id != cur[slot].id);
                    }
                    assert(cur[j].id != id);
                    assert(ids@.take(k + 1).contains(s0[j].id) == ids@.take(k as int).contains(s0[j].id));
                }
            }
            assert(players.members() =~= nxt);
            assert forall|a: int, b: int| 0 <= a < b < players.members().len() implies #[trigger] players.members()[a].id
                != #[trigger] players.members()[b].id by {
                assert(players.members()[a].id == cur[a].id);
                assert(players.members()[b].id == cur[b].id);
            }
        }
        k = k + 1;
    }
    assert(ids@.take(k as int) =~= ids@);
}

fn clear_ritual_flags(players: &mut PlayerSet, ids: &[u32])
    requires
        old(players).wf(),
    ensures
        final(players).wf(),
        final(players).next() == old(players).next(),
        final(players).members() == with_flags(old(players).members(), ids@, false),
{
    set_ritual_flags(players, ids, false);
}

/// The subject success line for `level`.
pub open spec fn level_line(level: u8) -> Seq<char> {
    "current level : "@ + decimal(level as nat) + "\n"@
}

/// Format the subject success line.
pub fn current_level_line(level: u8) -> (s: String)
    ensures
        s@ == level_line(level),
{
    let mut s = to_owned_string("current level : ");
    push_decimal(&mut s, level as u64);
    crate::text::push_str(&mut s, "\n");
    s
}

/// `evolution in progress\n`, as bytes.
pub const EVOLUTION_IN_PROGRESS: [u8; 22] = [
    101, 118, 111, 108, 117, 116, 105, 111, 110, 32, 105, 110, 32, 112, 114, 111, 103, 114, 101, 115, 115, 10,
];

/// `a` is `b` with perhaps other inventories.
pub open spec fn same_but_inventory(a: Seq<Player>, b: Seq<Player>) -> bool {
    a.len() == b.len() && forall|j: int| 0 <= j < a.len() ==> #[trigger] a[j] == Player { inventory: a[j].inventory, ..b[j] }
}

/// Changing the player at the first position of `id` leaves what the others
/// carry as it was, for ids lists without `id`.
proof fn lemma_carried_other(s: Seq<Player>, j: int, p: Player, l: Seq<u32>, kind: StoneKind)
    requires
        0 <= j < s.len(),
        p.id == s[j].id,
        !l.contains(s[j].id),
    ensures
        carried_total(s.update(j, p), l, kind) == carried_total(s, l, kind),
    decreases l.len(),
{
    if l.len() > 0 {
        let v = l[0];
        let s1 = s.update(j, p);
        assert(same_ids(s1, s));
        lemma_same_ids(s1, s, v);
        lemma_first_with_id(s, v);
        assert(v != s[j].id);
        assert(!l.drop_first().contains(s[j].id)) by {
            if l.drop_first().contains(s[j].id) {
                let k = choose|k: int| 0 <= k < l.drop_first().len() && l.drop_first()[k] == s[j].id;
                assert(l[k + 1] == s[j].id);
            }
        }
        lemma_carried_other(s, j, p, l.drop_first(), kind);
    }
}

/// Drawing takes what is missing from what the players carry, as far as it
/// goes, touching only the players listed and only the kind drawn.
proof fn lemma_draw_exact(s: Seq<Player>, ids: Seq<u32>, kind: StoneKind, left: nat)
    requires
        ids.no_duplicates(),
    ensures
        draw_from(s, ids, kind, left).1 == (if left > carried_total(s, ids, kind) {
            left - carried_total(s, ids, kind)
        } else {
            0
        }),
        carried_total(draw_from(s, ids, kind, left).0, ids, kind) == carried_total(s, ids, kind) - (left
            - draw_from(s, ids, kind, left).1),
        forall|other: StoneKind|
            other != kind ==> #[trigger] carried_total(draw_from(s, ids, kind, left).0, ids, other) == carried_total(
                s,
                ids,
                other,
            ),
        same_but_inventory(draw_from(s, ids, kind, left).0, s),
        forall|j: int|
            0 <= j < s.len() && !ids.contains(s[j].id) ==> #[trigger] draw_from(s, ids, kind, left).0[j] == s[j],
    decreases ids.len(),
{
    let d = draw_from(s, ids, kind, left);
    if ids.len() == 0 || left == 0 {
        assert forall|other: StoneKind| other != kind implies #[trigger] carried_total(d.0, ids, other) == carried_total(s, ids, other) by {}
        if ids.len() > 0 {
            lemma_carried_total_nonneg(s, ids, kind);
        }
    } else {
        let id = ids[0];
        let rest = ids.drop_first();
        assert(rest.no_duplicates()) by {
            assert forall|a: int, b: int| 0 <= a < rest.len() && 0 <= b < rest.len() && a != b implies rest[a] != rest[b] by {
                assert(rest[a] == ids[a + 1] && rest[b] == ids[b + 1]);
            }
        }
        assert(!rest.contains(id)) by {
            if rest.contains(id) {
                let k = choose|k: int| 0 <= k < rest.len() && rest[k] == id;
                assert(ids[k + 1] == ids[0]);
            }
        }
        let j = first_with_id(s, id);
        lemma_first_with_id(s, id);
        if j >= 0 {
            let have = s[j].inventory.count(kind) as nat;
            let take = if have < left {
                have
            } else {
                left
            };
            let p = with_stone_count(s[j], kind, (have - take) as u32);
            let s2 = s.update(j, p);
            lemma_with_count(s[j], kind, (have - take) as u32, 0, kind);
            lemma_draw_exact(s2, rest, kind, (left - take) as nat);
            let d2 = draw_from(s2, rest, kind, (left - take) as nat);
            assert(d == d2);
            lemma_carried_other(s, j, p, rest, kind);
            assert(same_ids(s2, s));
            lemma_same_ids(s2, s, id);
            assert(same_ids(d.0, s2));
            lemma_same_ids(d.0, s2, id);
            assert(d.0[j] == s2[j]);
            assert(carried(d.0, id, kind) == have - take);
            assert(carried(s, id, kind) == have);
            assert forall|other: StoneKind| other != kind implies #[trigger] carried_total(d.0, ids, other) == carried_total(s, ids, other) by {
                lemma_carried_other(s, j, p, rest, other);
                lemma_with_count(s[j], kind, (have - take) as u32, 0, other);
                assert(carried_total(d.0, rest, other) == carried_total(s2, rest, other));
                assert(carried(d.0, id, other) == carried(s, id, other));
            }
            assert forall|a: int| 0 <= a < d.0.len() implies #[trigger] d.0[a] == Player { inventory: d.0[a].inventory, ..s[a] } by {
                assert(d.0[a] == Player { inventory: d.0[a].inventory, ..s2[a] });
            }
            assert forall|a: int| 0 <= a < s.len() && !ids.contains(s[a].id) implies #[trigger] d.0[a] == s[a] by {
                assert(s[a].id != id);
                assert(a != j);
                assert(!rest.contains(s2[a].id)) by {
                    if rest.contains(s2[a].id) {
                        let k = choose|k: int| 0 <= k < rest.len() && rest[k] == s2[a].id;
                        assert(ids[k + 1] == s[a].id);
                    }
                }
            }
            lemma_carried_total_nonneg(s, rest, kind);
        } else {
            lemma_draw_exact(s, rest, kind, left);
            assert(d == draw_from(s, rest, kind, left));
            assert(same_ids(d.0, s));
            lemma_same_ids(d.0, s, id);
            assert(carried(d.0, id, kind) == 0);
            assert forall|other: StoneKind| other != kind implies #[trigger] carried_total(d.0, ids, other) == carried_total(s, ids, other) by {
                assert(carried(d.0, id, other) == 0);
                assert(carried_total(d.0, rest, other) == carried_total(s, rest, other));
            }
            assert forall|a: int| 0 <= a < s.len() && !ids.contains(s[a].id) implies #[trigger] d.0[a] == s[a] by {
                assert(!rest.contains(s[a].id)) by {
                    if rest.contains(s[a].id) {
                        let k = choose|k: int| 0 <= k < rest.len() && rest[k] == s[a].id;
                        assert(ids[k + 1] == s[a].id);
                    }
                }
            }
        }
    }
}

proof fn lemma_carried_total_nonneg(s: Seq<Player>, ids: Seq<u32>, kind: StoneKind)
    ensures
        carried_total(s, ids, kind) >= 0,
{
}

/// Consuming kinds `i` and on takes exactly each row count from the pool of
/// those kinds, leaves the pool of the other kinds, touches only inventories,
/// and only those of the players listed.
proof fn lemma_consumed_exact(tile: Tile, s: Seq<Player>, ids: Seq<u32>, req: RitualReq, i: int)
    requires
        0 <= i <= 6,
        ids.no_duplicates(),
        forall|m: int|
            i <= m < 6 ==> #[trigger] req.stones@[m] == 0 || pool_count(tile, s, ids, StoneKind::at(m))
                >= req.stones@[m],
    ensures
        forall|m: int|
            i <= m < 6 ==> #[trigger] pool_count(
                consumed_from(tile, s, ids, req, i).0,
                consumed_from(tile, s, ids, req, i).1,
                ids,
                StoneKind::at(m),
            ) + req.stones@[m] == pool_count(tile, s, ids, StoneKind::at(m)),
        forall|m: int|
            0 <= m < i ==> #[trigger] pool_count(
                consumed_from(tile, s, ids, req, i).0,
                consumed_from(tile, s, ids, req, i).1,
                ids,
                StoneKind::at(m),
            ) == pool_count(tile, s, ids, StoneKind::at(m)),
        same_but_inventory(consumed_from(tile, s, ids, req, i).1, s),
        forall|j: int|
            0 <= j < s.len() && !ids.contains(s[j].id) ==> #[trigger] consumed_from(tile, s, ids, req, i).1[j] == s[j],
    decreases 6 - i,
{
    let c = consumed_from(tile, s, ids, req, i);
    if i < 6 {
        let need = req.stones@[i];
        let k = StoneKind::at(i);
        if need == 0 {
            lemma_consumed_exact(tile, s, ids, req, i + 1);
            assert(c == consumed_from(tile, s, ids, req, i + 1));
            assert(pool_count(c.0, c.1, ids, StoneKind::at(i)) == pool_count(tile, s, ids, StoneKind::at(i)));
        } else {
            let held = tile.holds(k);
            let left: nat = if held {
                (need - 1) as nat
            } else {
                need as nat
            };
            lemma_draw_exact(s, ids, k, left);
            let s2 = draw_from(s, ids, k, left).0;
            let t2 = tile.with_stone(k, false);
            assert forall|m: int| 0 <= m < 6 && m != i implies #[trigger] pool_count(t2, s2, ids, StoneKind::at(m))
                == pool_count(tile, s, ids, StoneKind::at(m)) by {
                lemma_stone_index_roundtrip(k, i);
                lemma_stone_index_roundtrip(StoneKind::at(m), m);
                tile.lemma_tile_updates(k, false, StoneKind::at(m));
                assert(carried_total(s2, ids, StoneKind::at(m)) == carried_total(s, ids, StoneKind::at(m)));
            }
            tile.lemma_tile_updates(k, false, k);
            assert(pool_count(t2, s2, ids, k) + need == pool_count(tile, s, ids, k));
            lemma_consumed_exact(t2, s2, ids, req, i + 1);
            assert(c == consumed_from(t2, s2, ids, req, i + 1));
            assert forall|m: int| i <= m < 6 implies #[trigger] pool_count(c.0, c.1, ids, StoneKind::at(m)) + req.stones@[m]
                == pool_count(tile, s, ids, StoneKind::at(m)) by {
                if m > i {
                    assert(pool_count(t2, s2, ids, StoneKind::at(m)) == pool_count(tile, s, ids, StoneKind::at(m)));
                }
            }
            assert forall|m: int| 0 <= m < i implies #[trigger] pool_count(c.0, c.1, ids, StoneKind::at(m)) == pool_count(
                tile,
                s,
                ids,
                StoneKind::at(m),
            ) by {
                assert(pool_count(t2, s2, ids, StoneKind::at(m)) == pool_count(tile, s, ids, StoneKind::at(m)));
            }
            assert forall|j: int| 0 <= j < c.1.len() implies #[trigger] c.1[j] == Player { inventory: c.1[j].inventory, ..s[j] } by {
                assert(c.1[j] == Player { inventory: c.1[j].inventory, ..s2[j] });
                assert(s2[j] == Player { inventory: s2[j].inventory, ..s[j] });
            }
            assert forall|j: int| 0 <= j < s.len() && !ids.contains(s[j].id) implies #[trigger] c.1[j] == s[j] by {
                assert(s2[j] == s[j]);
            }
        }
    } else {
        assert(c == (tile, s));
        assert forall|j: int| 0 <= j < c.1.len() implies #[trigger] c.1[j] == Player { inventory: c.1[j].inventory, ..s[j] } by {}
    }
}

/// Completing a ritual takes exactly the stones its table row asks for from
/// the pool of its participants (the square's stone first, then what they
/// carry): for each kind, the pool shrinks by the row's count. Only
/// inventories change, and only those of the participants.
pub proof fn law_consumption_exact(tile: Tile, s: Seq<Player>, ids: Seq<u32>, req: RitualReq)
    requires
        ids.no_duplicates(),
        sufficient(req, tile, s, ids),
    ensures
        forall|i: int|
            0 <= i < 6 ==> #[trigger] pool_count(
                consumed_from(tile, s, ids, req, 0).0,
                consumed_from(tile, s, ids, req, 0).1,
                ids,
                StoneKind::at(i),
            ) + req.stones@[i] == pool_count(tile, s, ids, StoneKind::at(i)),
        same_but_inventory(consumed_from(tile, s, ids, req, 0).1, s),
        forall|j: int|
            0 <= j < s.len() && !ids.contains(s[j].id) ==> #[trigger] consumed_from(tile, s, ids, req, 0).1[j] == s[j],
{
    lemma_consumed_exact(tile, s, ids, req, 0);
}

/// Drawing changes inventories only.
proof fn lemma_draw_shape(s: Seq<Player>, ids: Seq<u32>, kind: StoneKind, left: nat)
    ensures
        same_but_inventory(draw_from(s, ids, kind, left).0, s),
    decreases ids.len(),
{
    let d = draw_from(s, ids, kind, left);
    if ids.len() == 0 || left == 0 {
        assert forall|a: int| 0 <= a < d.0.len() implies #[trigger] d.0[a] == Player { inventory: d.0[a].inventory, ..s[a] } by {}
    } else {
        let j = first_with_id(s, ids[0]);
        lemma_first_with_id(s, ids[0]);
        if j >= 0 {
            let have = s[j].inventory.count(kind) as nat;
            let take = if have < left {
                have
            } else {
                left
            };
            let s2 = s.update(j, with_stone_count(s[j], kind, (have - take) as u32));
            lemma_draw_shape(s2, ids.drop_first(), kind, (left - take) as nat);
            assert forall|a: int| 0 <= a < d.0.len() implies #[trigger] d.0[a] == Player { inventory: d.0[a].inventory, ..s[a] } by {
                assert(d.0[a] == Player { inventory: d.0[a].inventory, ..s2[a] });
            }
        } else {
            lemma_draw_shape(s, ids.drop_first(), kind, left);
        }
    }
}

/// Consuming changes inventories only.
proof fn lemma_consumed_shape(tile: Tile, s: Seq<Player>, ids: Seq<u32>, req: RitualReq, i: int)
    ensures
        same_but_inventory(consumed_from(tile, s, ids, req, i).1, s),
    decreases 6 - i,
{
    let c = consumed_from(tile, s, ids, req, i);
    if 0 <= i < 6 {
        let k = StoneKind::at(i);
        if req.stones@[i] == 0 {
            lemma_consumed_shape(tile, s, ids, req, i + 1);
        } else {
            let left: nat = if tile.holds(k) {
                (req.stones@[i] - 1) as nat
            } else {
                req.stones@[i] as nat
            };
            let s2 = draw_from(s, ids, k, left).0;
            lemma_draw_shape(s, ids, k, left);
            lemma_consumed_shape(tile.with_stone(k, false), s2, ids, req, i + 1);
            assert forall|j: int| 0 <= j < c.1.len() implies #[trigger] c.1[j] == Player { inventory: c.1[j].inventory, ..s[j] } by {
                assert(c.1[j] == Player { inventory: c.1[j].inventory, ..s2[j] });
                assert(s2[j] == Player { inventory: s2[j].inventory, ..s[j] });
            }
        }
    } else {
        assert forall|j: int| 0 <= j < c.1.len() implies #[trigger] c.1[j] == Player { inventory: c.1[j].inventory, ..s[j] } by {}
    }
}

/// Completing a ritual raises each participant still on its square by one
/// level and takes every participant out of the ritual; everybody else keeps
/// their level, and nobody moves.
pub proof fn law_completion_levels(
    rit: RitualView,
    s: Seq<Player>,
    world: World,
    out: Option<(u8, Seq<u32>)>,
    s1: Seq<Player>,
    cells1: Seq<Tile>,
)
    requires
        completion(rit, s, world, out, s1, cells1),
        completes(rit, s, world.tile_at(rit.x as int, rit.y as int)),
    ensures
        out == Some(((rit.level + 1) as u8, still_ids(s, rit.participants, rit.level, rit.x, rit.y))),
        s1.len() == s.len(),
        forall|j: int|
            0 <= j < s.len() ==> #[trigger] s1[j].id == s[j].id && s1[j].x == s[j].x && s1[j].y == s[j].y,
        forall|j: int|
            0 <= j < s.len() && still_ids(s, rit.participants, rit.level, rit.x, rit.y).contains(s[j].id)
                ==> #[trigger] s1[j].level == rit.level + 1,
        forall|j: int|
            0 <= j < s.len() && !still_ids(s, rit.participants, rit.level, rit.x, rit.y).contains(s[j].id)
                ==> #[trigger] s1[j].level == s[j].level,
        forall|j: int| 0 <= j < s.len() && rit.participants.contains(s[j].id) ==> !(#[trigger] s1[j].in_ritual),
{
    let tile = world.tile_at(rit.x as int, rit.y as int);
    let req = table_row(rit.level).unwrap();
    let still = still_ids(s, rit.participants, rit.level, rit.x, rit.y);
    lemma_table_rows(rit.level);
    lemma_consumed_shape(tile, s, still, req, 0);
    let c = consumed_from(tile, s, still, req, 0);
    assert forall|j: int| 0 <= j < s.len() implies #[trigger] s1[j].id == s[j].id && s1[j].x == s[j].x && s1[j].y == s[j].y by {
        assert(c.1[j] == Player { inventory: c.1[j].inventory, ..s[j] });
    }
    assert forall|j: int| 0 <= j < s.len() && still.contains(s[j].id) implies #[trigger] s1[j].level == rit.level + 1 by {
        assert(c.1[j] == Player { inventory: c.1[j].inventory, ..s[j] });
    }
    assert forall|j: int| 0 <= j < s.len() && !still.contains(s[j].id) implies #[trigger] s1[j].level == s[j].level by {
        assert(c.1[j] == Player { inventory: c.1[j].inventory, ..s[j] });
    }
    assert forall|j: int| 0 <= j < s.len() && rit.participants.contains(s[j].id) implies !(#[trigger] s1[j].in_ritual) by {
        assert(c.1[j] == Player { inventory: c.1[j].inventory, ..s[j] });
    }
}

/// A ritual that begins takes exactly as many participants as its table row
/// asks, the starter first, each once, each a player on the starter's square
/// at its level and not already in a ritual.
pub proof fn law_begin_participants(rs: Seq<RitualView>, players: PlayerSet, world: World, starter: u32)
    requires
        players.wf(),
    ensures
        begin_plan(rs, players.members(), world, starter) matches Some(rit) ==> {
            &&& table_row(rit.level) matches Some(req) && rit.participants.len() == req.players
            &&& rit.participants[0] == starter
            &&& rit.starter_id == starter
            &&& rit.participants.no_duplicates()
            &&& forall|k: int|
                0 <= k < rit.participants.len() ==> exists|j: int|
                    0 <= j < players.members().len() && (#[trigger] players.members()[j]).id == #[trigger] rit.participants[k]
                        && eligible(players.members()[j], rit.x, rit.y, rit.level)
        },
{
    let s = players.members();
    if let Some(rit) = begin_plan(rs, s, world, starter) {
        let slot = first_with_id(s, starter);
        lemma_first_with_id(s, starter);
        let p = s[slot];
        let req = table_row(p.level).unwrap();
        lemma_table_rows(p.level);
        let parts = eligible_ids(s, p.x, p.y, p.level);
        lemma_eligible_ids(s, p.x, p.y, p.level);
        assert(eligible(s[slot], p.x, p.y, p.level));
        assert(parts.contains(starter));
        lemma_others(parts, starter);
        let o = others(parts, starter);
        let n = req.players as int;
        let t = leading(o, n - 1);
        assert(t =~= o.take(n - 1));
        assert(rit.participants =~= seq![starter] + t);
        assert forall|a: int, b: int|
            0 <= a < rit.participants.len() && 0 <= b < rit.participants.len() && a != b implies rit.participants[a]
            != rit.participants[b] by {
            if a > 0 && b > 0 {
                assert(rit.participants[a] == o[a - 1] && rit.participants[b] == o[b - 1]);
            } else if a == 0 {
                assert(rit.participants[b] == o[b - 1]);
                assert(o.contains(o[b - 1]));
            } else {
                assert(rit.participants[a] == o[a - 1]);
                assert(o.contains(o[a - 1]));
            }
        }
        assert forall|k: int| 0 <= k < rit.participants.len() implies exists|j: int|
            0 <= j < s.len() && (#[trigger] s[j]).id == #[trigger] rit.participants[k] && eligible(s[j], rit.x, rit.y, rit.level) by {
            if k == 0 {
                assert(s[slot].id == rit.participants[0]);
            } else {
                assert(rit.participants[k] == o[k - 1]);
                assert(o.contains(o[k - 1]));
                assert(parts.contains(rit.participants[k]));
            }
        }
    }
}

/// After a player leaves, every ritual still in flight has as many
/// participants as its table row asks, and the player is in none of them.
pub proof fn law_gone_leaves_staffed(rs: Seq<RitualView>, id: u32)
    ensures
        forall|i: int|
            0 <= i < kept_after(rs, id).len() ==> staffed(#[trigger] kept_after(rs, id)[i]) && !kept_after(
                rs,
                id,
            )[i].participants.contains(id),
    decreases rs.len(),
{
    if rs.len() > 0 {
        law_gone_leaves_staffed(rs.drop_last(), id);
        lemma_others(rs.last().participants, id);
        let rest = kept_after(rs.drop_last(), id);
        assert forall|i: int| 0 <= i < kept_after(rs, id).len() implies staffed(#[trigger] kept_after(rs, id)[i])
            && !kept_after(rs, id)[i].participants.contains(id) by {
            if i < rest.len() {
                assert(kept_after(rs, id)[i] == rest[i]);
            }
        }
    }
}

/// Adding one id to the end adds what that player carries.
proof fn lemma_carried_total_push(s: Seq<Player>, ids: Seq<u32>, v: u32, kind: StoneKind)
    ensures
        carried_total(s, ids.push(v), kind) == carried_total(s, ids, kind) + carried(s, v, kind),
    decreases ids.len(),
{
    if ids.len() > 0 {
        assert(ids.push(v).drop_first() =~= ids.drop_first().push(v));
        assert(ids.push(v)[0] == ids[0]);
        lemma_carried_total_push(s, ids.drop_first(), v, kind);
    } else {
        assert(ids.push(v).drop_first() =~= Seq::<u32>::empty());
        assert(ids.push(v)[0] == v);
        assert(carried_total(s, Seq::<u32>::empty(), kind) == 0);
    }
}

/// The participants other than `v` carry what all of them carry but `v`'s part.
proof fn lemma_carried_total_others(s: Seq<Player>, parts: Seq<u32>, v: u32, kind: StoneKind)
    requires
        parts.no_duplicates(),
        parts.contains(v),
    ensures
        carried_total(s, parts, kind) == carried(s, v, kind) + carried_total(s, others(parts, v), kind),
    decreases parts.len(),
{
    let d = parts.drop_last();
    let last = parts.last();
    assert(d.push(last) =~= parts);
    lemma_carried_total_push(s, d, last, kind);
    lemma_others(d, v);
    assert(d.no_duplicates()) by {
        assert forall|i: int, j: int| 0 <= i < d.len() && 0 <= j < d.len() && i != j implies d[i] != d[j] by {
            assert(d[i] == parts[i] && d[j] == parts[j]);
        }
    }
    if last == v {
        assert(!d.contains(v)) by {
            if d.contains(v) {
                let k = choose|k: int| 0 <= k < d.len() && d[k] == v;
                assert(parts[k] == parts[parts.len() - 1]);
            }
        }
    } else {
        let k = choose|k: int| 0 <= k < parts.len() && parts[k] == v;
        assert(d[k] == v);
        lemma_carried_total_others(s, d, v, kind);
        lemma_carried_total_push(s, others(d, v), last, kind);
    }
}

/// Ids whose players all stand at `(x, y)` at `level` are all still there.
proof fn lemma_still_all(s: Seq<Player>, ids: Seq<u32>, level: u8, x: u32, y: u32)
    requires
        forall|k: int|
            0 <= k < ids.len() ==> first_with_id(s, #[trigger] ids[k]) >= 0 && s[first_with_id(s, ids[k])].level == level
                && s[first_with_id(s, ids[k])].x == x && s[first_with_id(s, ids[k])].y == y,
    ensures
        still_ids(s, ids, level, x, y) == ids,
    decreases ids.len(),
{
    if ids.len() > 0 {
        let d = ids.drop_last();
        assert forall|k: int| 0 <= k < d.len() implies first_with_id(s, #[trigger] d[k]) >= 0 && s[first_with_id(s, d[k])].level
            == level && s[first_with_id(s, d[k])].x == x && s[first_with_id(s, d[k])].y == y by {
            assert(d[k] == ids[k]);
        }
        lemma_still_all(s, d, level, x, y);
        assert(ids[ids.len() - 1] == ids.last());
        assert(d.push(ids.last()) =~= ids);
    }
}

/// Players differing only in their ritual flags carry the same stones.
proof fn lemma_carried_total_flags(s: Seq<Player>, marks: Seq<u32>, flag: bool, ids: Seq<u32>, kind: StoneKind)
    ensures
        carried_total(with_flags(s, marks, flag), ids, kind) == carried_total(s, ids, kind),
    decreases ids.len(),
{
    if ids.len() > 0 {
        let s2 = with_flags(s, marks, flag);
        assert(same_ids(s2, s));
        lemma_same_ids(s2, s, ids[0]);
        lemma_first_with_id(s, ids[0]);
        lemma_carried_total_flags(s, marks, flag, ids.drop_first(), kind);
    }
}

/// A ritual that begins with exactly as many eligible players on the square
/// as its table row asks completes if nothing changes meanwhile: every
/// participant is still there and the pool still covers the row.
pub proof fn law_begun_ritual_completes(rs: Seq<RitualView>, players: PlayerSet, world: World, starter: u32)
    requires
        players.wf(),
        begin_plan(rs, players.members(), world, starter) matches Some(rit) && eligible_ids(
            players.members(),
            rit.x,
            rit.y,
            rit.level,
        ).len() == table_row(rit.level).unwrap().players,
    ensures
        begin_plan(rs, players.members(), world, starter) matches Some(rit) ==> completes(
            rit,
            with_flags(players.members(), rit.participants, true),
            world.tile_at(rit.x as int, rit.y as int),
        ),
{
    let s = players.members();
    let rit = begin_plan(rs, s, world, starter).unwrap();
    law_begin_participants(rs, players, world, starter);
    let slot = first_with_id(s, starter);
    lemma_first_with_id(s, starter);
    let req = table_row(rit.level).unwrap();
    let parts = eligible_ids(s, rit.x, rit.y, rit.level);
    lemma_eligible_ids(s, rit.x, rit.y, rit.level);
    lemma_table_rows(rit.level);
    assert(eligible(s[slot], rit.x, rit.y, rit.level));
    lemma_others(parts, starter);
    let o = others(parts, starter);
    let pp = rit.participants;
    let s2 = with_flags(s, pp, true);
    assert(pp =~= seq![starter] + o);
    // Every participant is found, on the square and at the level, after the flags are set.
    assert forall|k: int| 0 <= k < pp.len() implies first_with_id(s2, #[trigger] pp[k]) >= 0 && s2[first_with_id(
        s2,
        pp[k],
    )].level == rit.level && s2[first_with_id(s2, pp[k])].x == rit.x && s2[first_with_id(s2, pp[k])].y == rit.y by {
        let j = choose|j: int| 0 <= j < s.len() && (#[trigger] s[j]).id == pp[k] && eligible(s[j], rit.x, rit.y, rit.level);
        assert(same_ids(s2, s));
        lemma_same_ids(s2, s, pp[k]);
        lemma_first_with_id(s, pp[k]);
        let f = first_with_id(s, pp[k]);
        if f != j {
            assert(s[f].id == s[j].id);
        }
    }
    lemma_still_all(s2, pp, rit.level, rit.x, rit.y);
    let tile = world.tile_at(rit.x as int, rit.y as int);
    assert forall|i: int| 0 <= i < 6 implies #[trigger] req.stones@[i] == 0 || pool_count(tile, s2, pp, StoneKind::at(i))
        >= req.stones@[i] by {
        let kind = StoneKind::at(i);
        lemma_carried_total_flags(s, pp, true, pp, kind);
        lemma_carried_total_others(s, parts, starter, kind);
        assert(pp.drop_first() =~= o);
        assert(carried_total(s, pp, kind) == carried(s, starter, kind) + carried_total(s, o, kind));
    }
}

} // verus!
