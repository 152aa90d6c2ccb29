//! Fork / ship / eggs.
//!
//! `fork` (48/t) calls a ship at the player's tile. After **600** time units the
//! ship arrives: the team gains one free connection slot (`connect_nbr` rises)
//! and the next joining teammate spawns on that tile with a random facing.

use std::collections::VecDeque;

use vstd::prelude::*;

use crate::text::{str_eq, to_owned_string};

verus! {

/// Subject ship travel time after `fork` completes.
pub const SHIP_ARRIVAL_TU: u64 = 600;

/// An incubating or hatched ship/egg for one team.
#[derive(Debug, Clone, PartialEq, Eq)]
pub struct Egg {
    pub team: String,
    pub x: u32,
    pub y: u32,
    /// Game time unit when the ship arrives / egg hatches.
    pub hatch_at_tu: u64,
}

/// An egg with its team name as characters.
pub struct EggView {
    pub team: Seq<char>,
    pub x: u32,
    pub y: u32,
    pub hatch_at_tu: u64,
}

impl View for Egg {
    type V = EggView;

    open spec fn view(&self) -> EggView {
        EggView { team: self.team@, x: self.x, y: self.y, hatch_at_tu: self.hatch_at_tu }
    }
}

/// An equal copy of `e`.
fn copy_egg(e: &Egg) -> (c: Egg)
    ensures
        c@ == e@,
{
    Egg { team: e.team.clone(), x: e.x, y: e.y, hatch_at_tu: e.hatch_at_tu }
}

/// Views of the eggs of `s`, in order.
pub open spec fn egg_views(s: Seq<Egg>) -> Seq<EggView> {
    s.map_values(|e: Egg| e@)
}

/// Eggs of `s` whose ship has arrived by `now`, in order.
pub open spec fn arrived(s: Seq<EggView>, now: u64) -> Seq<EggView>
    decreases s.len(),
{
    if s.len() == 0 {
        Seq::empty()
    } else if s.last().hatch_at_tu <= now {
        arrived(s.drop_last(), now).push(s.last())
    } else {
        arrived(s.drop_last(), now)
    }
}

/// Eggs of `s` still incubating at `now`, in order.
pub open spec fn still_incubating(s: Seq<EggView>, now: u64) -> Seq<EggView>
    decreases s.len(),
{
    if s.len() == 0 {
        Seq::empty()
    } else if s.last().hatch_at_tu <= now {
        still_incubating(s.drop_last(), now)
    } else {
        still_incubating(s.drop_last(), now).push(s.last())
    }
}

/// Position of the first egg of `team` in `s`, or `-1`.
pub open spec fn first_of_team(s: Seq<EggView>, team: Seq<char>) -> int
    decreases s.len(),
{
    if s.len() == 0 {
        -1
    } else if s[0].team == team {
        0
    } else {
        let r = first_of_team(s.drop_first(), team);
        if r < 0 {
            -1
        } else {
            r + 1
        }
    }
}

proof fn lemma_first_of_team(s: Seq<EggView>, team: Seq<char>)
    ensures
        -1 <= first_of_team(s, team) < s.len(),
        first_of_team(s, team) >= 0 ==> s[first_of_team(s, team)].team == team,
        forall|j: int| 0 <= j < s.len() && (first_of_team(s, team) < 0 || j < first_of_team(s, team)) ==> #[trigger] s[j].team != team,
    decreases s.len(),
{
    if s.len() > 0 && s[0].team != team {
        lemma_first_of_team(s.drop_first(), team);
        assert forall|j: int| 0 <= j < s.len() && (first_of_team(s, team) < 0 || j < first_of_team(s, team)) implies #[trigger] s[j].team != team by {
            if j > 0 {
                assert(s[j] == s.drop_first()[j - 1]);
            }
        }
    }
}

/// Earliest hatch time among `s`, if any.
pub open spec fn earliest_hatch(s: Seq<EggView>) -> Option<u64>
    decreases s.len(),
{
    if s.len() == 0 {
        None
    } else {
        match earliest_hatch(s.drop_last()) {
            Some(m) => if s.last().hatch_at_tu < m {
                Some(s.last().hatch_at_tu)
            } else {
                Some(m)
            },
            None => Some(s.last().hatch_at_tu),
        }
    }
}

/// Pending ships: incubating until `hatch_at_tu`, then ready for a join spawn.
#[derive(Debug, Default)]
pub struct EggSet {
    incubating: Vec<Egg>,
    /// Hatched eggs waiting for a client to take the new slot (FIFO per take).
    ready: VecDeque<Egg>,
}

impl EggSet {
    /// Eggs whose ship has not arrived, in calling order.
    pub closed spec fn incubating_eggs(self) -> Seq<EggView> {
        egg_views(self.incubating@)
    }

    /// Hatched eggs not yet taken, oldest first.
    pub closed spec fn ready_eggs(self) -> Seq<EggView> {
        self.ready@.map_values(|e: Egg| e@)
    }

    pub fn new() -> (s: EggSet)
        ensures
            s.incubating_eggs().len() == 0,
            s.ready_eggs().len() == 0,
    {
        EggSet { incubating: Vec::new(), ready: VecDeque::new() }
    }

    /// Record a ship called by `fork` at `(x, y)` for `team`.
    pub fn call_ship(&mut self, team: &str, x: u32, y: u32, now_tu: u64)
        ensures
            final(self).incubating_eggs() == old(self).incubating_eggs().push(
                EggView {
                    team: team@,
                    x,
                    y,
                    hatch_at_tu: if now_tu + SHIP_ARRIVAL_TU > u64::MAX {
                        u64::MAX
                    } else {
                        (now_tu + SHIP_ARRIVAL_TU) as u64
                    },
                },
            ),
            final(self).ready_eggs() == old(self).ready_eggs(),
    {
        let hatch = now_tu.saturating_add(SHIP_ARRIVAL_TU);
        self.incubating.push(Egg { team: to_owned_string(team), x, y, hatch_at_tu: hatch });
        assert(self.incubating_eggs() =~= old(self).incubating_eggs().push(self.incubating@.last()@));
    }

    /// Hatch every egg whose ship has arrived. Returns the hatched eggs, in
    /// calling order.
    ///
    /// Caller must increase team slots for each returned egg's team.
    pub fn hatch_due(&mut self, now_tu: u64) -> (due: Vec<Egg>)
        ensures
            egg_views(due@) == arrived(old(self).incubating_eggs(), now_tu),
            final(self).incubating_eggs() == still_incubating(old(self).incubating_eggs(), now_tu),
            final(self).ready_eggs() == old(self).ready_eggs() + arrived(old(self).incubating_eggs(), now_tu),
    {
        let ghost s0 = old(self).incubating_eggs();
        let mut due: Vec<Egg> = Vec::new();
        let mut rest: Vec<Egg> = Vec::new();
        let mut i: usize = 0;
        while i < self.incubating.len()
            invariant
                i <= self.incubating@.len(),
                egg_views(self.incubating@) == s0,
                egg_views(due@) == arrived(s0.subrange(0, i as int), now_tu),
                egg_views(rest@) == still_incubating(s0.subrange(0, i as int), now_tu),
                self.ready_eggs() == old(self).ready_eggs(),
            decreases self.incubating@.len() - i,
        {
            assert(s0.subrange(0, i + 1).drop_last() =~= s0.subrange(0, i as int));
            assert(s0[i as int] == self.incubating@[i as int]@);
            let e = copy_egg(&self.incubating[i]);
            if e.hatch_at_tu <= now_tu {
                due.push(e);
                assert(egg_views(due@) =~= arrived(s0.subrange(0, i + 1), now_tu));
            } else {
                rest.push(e);
                assert(egg_views(rest@) =~= still_incubating(s0.subrange(0, i + 1), now_tu));
            }
            i = i + 1;
        }
        assert(s0.subrange(0, i as int) =~= s0);
        self.incubating = rest;
        let mut k: usize = 0;
        while k < due.len()
            invariant
                k <= due@.len(),
                self.incubating_eggs() == still_incubating(s0, now_tu),
                egg_views(due@) == arrived(s0, now_tu),
                self.ready_eggs() == old(self).ready_eggs() + egg_views(due@).take(k as int),
            decreases due@.len() - k,
        {
            let e = copy_egg(&due[k]);
            assert(egg_views(due@)[k as int] == due@[k as int]@);
            let ghost before = self.ready@;
            self.ready.push_back(e);
            assert(self.ready@.map_values(|x: Egg| x@) =~= before.map_values(|x: Egg| x@).push(e@));
            assert(egg_views(due@).take(k + 1) =~= egg_views(due@).take(k as int).push(e@));
            k = k + 1;
            assert(self.ready_eggs() =~= old(self).ready_eggs() + egg_views(due@).take(k as int));
        }
        assert(egg_views(due@).take(k as int) =~= egg_views(due@));
        due
    }

    /// Take the oldest ready egg for `team`, if any (spawn site for a new join).
    pub fn take_spawn(&mut self, team: &str) -> (site: Option<(u32, u32)>)
        ensures
            ({
                let i = first_of_team(old(self).ready_eggs(), team@);
                if i >= 0 {
                    &&& site == Some((old(self).ready_eggs()[i].x, old(self).ready_eggs()[i].y))
                    &&& final(self).ready_eggs() == old(self).ready_eggs().remove(i)
                } else {
                    &&& site.is_none()
                    &&& final(self).ready_eggs() == old(self).ready_eggs()
                }
            }),
            final(self).incubating_eggs() == old(self).incubating_eggs(),
    {
        let ghost r0 = old(self).ready_eggs();
        proof {
            lemma_first_of_team(r0, team@);
        }
        let mut i: usize = 0;
        while i < self.ready.len()
            invariant
                i <= self.ready@.len(),
                r0 == self.ready@.map_values(|e: Egg| e@),
                forall|j: int| 0 <= j < i ==> #[trigger] r0[j].team != team@,
                -1 <= first_of_team(r0, team@) < r0.len(),
                first_of_team(r0, team@) >= 0 ==> r0[first_of_team(r0, team@)].team == team@,
                forall|j: int| 0 <= j < r0.len() && (first_of_team(r0, team@) < 0 || j < first_of_team(r0, team@)) ==> #[trigger] r0[j].team != team@,
                self.incubating_eggs() == old(self).incubating_eggs(),
                self.ready_eggs() == r0,
                r0 == old(self).ready_eggs(),
            decreases self.ready@.len() - i,
        {
            assert(r0[i as int] == self.ready@[i as int]@);
            let is_team = str_eq(self.ready[i].team.as_str(), team);
            if is_team {
                proof {
                    assert(r0[i as int].team == team@);
                    let f = first_of_team(r0, team@);
                    if f >= 0 && f < i {
                        assert(r0[f].team != team@);
                    }
                    assert(f == i);
                }
                let egg = self.ready.remove(i);
                match egg {
                    Some(e) => {
                        assert(r0[i as int] == e@);
                        assert(self.ready_eggs() =~= r0.remove(i as int));
                        return Some((e.x, e.y));
                    },
                    None => {
                        return None;
                    },
                }
            }
            i = i + 1;
        }
        None
    }

    pub fn incubating_len(&self) -> (n: usize)
        ensures
            n == self.incubating_eggs().len(),
    {
        self.incubating.len()
    }

    pub fn ready_len(&self) -> (n: usize)
        ensures
            n == self.ready_eggs().len(),
    {
        self.ready.len()
    }

    /// Earliest hatch deadline among incubating eggs (for poll wakeups).
    pub fn next_hatch_tu(&self) -> (t: Option<u64>)
        ensures
            t == earliest_hatch(self.incubating_eggs()),
    {
        let ghost s0 = self.incubating_eggs();
        let mut best: Option<u64> = None;
        let mut i: usize = 0;
        while i < self.incubating.len()
            invariant
                i <= self.incubating@.len(),
                s0 == egg_views(self.incubating@),
                best == earliest_hatch(s0.subrange(0, i as int)),
            decreases self.incubating@.len() - i,
        {
            assert(s0.subrange(0, i + 1).drop_last() =~= s0.subrange(0, i as int));
            let h = self.incubating[i].hatch_at_tu;
            best = match best {
                Some(m) => if h < m {
                    Some(h)
                } else {
                    Some(m)
                },
                None => Some(h),
            };
            i = i + 1;
        }
        assert(s0.subrange(0, i as int) =~= s0);
        best
    }
}

/// A ship called at `now` is still incubating at every time before
/// `now + 600` and has arrived from then on (saturating at the largest time).
pub proof fn law_ship_arrival(e: EggView, called_at: u64, t: u64)
    requires
        e.hatch_at_tu == (if called_at + SHIP_ARRIVAL_TU > u64::MAX {
            u64::MAX
        } else {
            (called_at + SHIP_ARRIVAL_TU) as u64
        }),
    ensures
        arrived(seq![e], t) == (if t >= e.hatch_at_tu {
            seq![e]
        } else {
            Seq::<EggView>::empty()
        }),
        called_at + SHIP_ARRIVAL_TU <= u64::MAX ==> (arrived(seq![e], t).len() == 1 <==> t >= called_at + SHIP_ARRIVAL_TU),
{
    assert(seq![e].drop_last() =~= Seq::<EggView>::empty());
    assert(seq![e].last() == e);
    assert(arrived(Seq::<EggView>::empty(), t) == Seq::<EggView>::empty());
    assert(Seq::<EggView>::empty().push(e) =~= seq![e]);
}

/// Hatching splits the incubating eggs: every egg either arrived or is still
/// incubating, and none is lost or duplicated.
pub proof fn law_hatch_partitions(s: Seq<EggView>, now: u64)
    ensures
        arrived(s, now).len() + still_incubating(s, now).len() == s.len(),
        forall|i: int| 0 <= i < arrived(s, now).len() ==> (#[trigger] arrived(s, now)[i]).hatch_at_tu <= now,
        forall|i: int| 0 <= i < still_incubating(s, now).len() ==> (#[trigger] still_incubating(s, now)[i]).hatch_at_tu > now,
    decreases s.len(),
{
    if s.len() > 0 {
        law_hatch_partitions(s.drop_last(), now);
        let a = arrived(s.drop_last(), now);
        let b = still_incubating(s.drop_last(), now);
        assert forall|i: int| 0 <= i < arrived(s, now).len() implies (#[trigger] arrived(s, now)[i]).hatch_at_tu <= now by {
            if i < a.len() {
                assert(arrived(s, now)[i] == a[i]);
            }
        }
        assert forall|i: int| 0 <= i < still_incubating(s, now).len() implies (#[trigger] still_incubating(s, now)[i]).hatch_at_tu > now by {
            if i < b.len() {
                assert(still_incubating(s, now)[i] == b[i]);
            }
        }
    }
}

} // verus!
