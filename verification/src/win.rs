//! Win detection.
//!
//! The game ends when at least [`WIN_PLAYERS`] living members of one team are at
//! level [`WIN_LEVEL`] (8). There is no AI-client protocol line for victory in
//! the subject command table; the server logs the winner and stops the event
//! loop.

use vstd::prelude::*;

use crate::player::{Player, PlayerSet};
use crate::text::str_eq;

verus! {

/// Highest player level / win threshold (subject).
pub const WIN_LEVEL: u8 = 8;

/// Members of one team required at [`WIN_LEVEL`] to end the game.
pub const WIN_PLAYERS: usize = 6;

/// Number of players of `s` on `team` at level `level` or above.
pub open spec fn level_count(s: Seq<Player>, team: Seq<char>, level: u8) -> nat
    decreases s.len(),
{
    if s.len() == 0 {
        0
    } else {
        level_count(s.drop_last(), team, level) + if s.last().team@ == team && s.last().level >= level {
            1nat
        } else {
            0nat
        }
    }
}

/// Whether `team` has enough players at the top level to win.
pub open spec fn team_wins(s: Seq<Player>, team: Seq<char>) -> bool {
    level_count(s, team, WIN_LEVEL) >= WIN_PLAYERS
}

/// How many living players on `team` are at least `level`.
pub fn count_at_level(players: &PlayerSet, team: &str, level: u8) -> (n: usize)
    ensures
        n == level_count(players.members(), team@, level),
{
    let ps = players.iter();
    let mut n: usize = 0;
    let mut i: usize = 0;
    while i < ps.len()
        invariant
            i <= ps@.len(),
            n == level_count(ps@.subrange(0, i as int), team@, level),
            n <= i,
        decreases ps@.len() - i,
    {
        assert(ps@.subrange(0, i + 1).drop_last() =~= ps@.subrange(0, i as int));
        if str_eq(ps[i].team.as_str(), team) && ps[i].level >= level {
            n = n + 1;
        }
        i = i + 1;
    }
    assert(ps@.subrange(0, i as int) =~= ps@);
    n
}

/// If any team has ≥[`WIN_PLAYERS`] living players at level ≥[`WIN_LEVEL`],
/// return that team name (the team of the earliest-arrived such player).
pub fn winning_team(players: &PlayerSet) -> (w: Option<&str>)
    ensures
        match w {
            Some(t) => exists|i: int|
                0 <= i < players.members().len() && #[trigger] players.members()[i].team@ == t@
                    && team_wins(players.members(), t@)
                    && forall|j: int| 0 <= j < i ==> !team_wins(players.members(), #[trigger] players.members()[j].team@),
            None => forall|i: int|
                0 <= i < players.members().len() ==> !team_wins(players.members(), #[trigger] players.members()[i].team@),
        },
{
    let ps = players.iter();
    let mut i: usize = 0;
    while i < ps.len()
        invariant
            i <= ps@.len(),
            ps@ == players.members(),
            forall|j: int| 0 <= j < i ==> !team_wins(players.members(), #[trigger] players.members()[j].team@),
        decreases ps@.len() - i,
    {
        if count_at_level(players, ps[i].team.as_str(), WIN_LEVEL) >= WIN_PLAYERS {
            return Some(ps[i].team.as_str());
        }
        i = i + 1;
    }
    None
}

} // verus!
