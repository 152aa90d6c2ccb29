use zappy_server::player::PlayerSet;
use zappy_server::win::{count_at_level, winning_team, WIN_LEVEL, WIN_PLAYERS};
use zappy_server::world::{SeededRng, World};

fn add(players: &mut PlayerSet, team: &str, level: u8) -> u32 {
    let world = World::empty(4, 4);
    let mut rng = SeededRng::new(1);
    let id = players.spawn(team, &world, &mut rng);
    players.get_mut(id).unwrap().level = level;
    id
}

#[test]
fn constants_match_subject() {
    assert_eq!(WIN_LEVEL, 8);
    assert_eq!(WIN_PLAYERS, 6);
}

#[test]
fn no_winner_below_threshold() {
    let mut players = PlayerSet::default();
    for _ in 0..5 {
        add(&mut players, "alpha", 8);
    }
    add(&mut players, "alpha", 7);
    assert!(winning_team(&players).is_none());
}

#[test]
fn six_at_level_eight_wins() {
    let mut players = PlayerSet::default();
    for _ in 0..6 {
        add(&mut players, "alpha", 8);
    }
    add(&mut players, "beta", 8);
    assert_eq!(winning_team(&players), Some("alpha"));
}

#[test]
fn other_team_does_not_count() {
    let mut players = PlayerSet::default();
    for _ in 0..5 {
        add(&mut players, "alpha", 8);
    }
    for _ in 0..5 {
        add(&mut players, "beta", 8);
    }
    assert!(winning_team(&players).is_none());
}

#[test]
fn first_team_to_six_wins() {
    let mut players = PlayerSet::default();
    for _ in 0..6 {
        add(&mut players, "beta", 8);
    }
    for _ in 0..6 {
        add(&mut players, "alpha", 8);
    }
    // Iteration order is hash-map based; either team is a valid winner.
    let w = winning_team(&players).unwrap();
    assert!(w == "alpha" || w == "beta");
    assert_eq!(count_at_level(&players, w, 8), 6);
}
