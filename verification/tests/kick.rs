use zappy_server::kick::{apply_kick, moving_k, KickOutcome};
use zappy_server::player::{Orientation, PlayerSet};
use zappy_server::world::{SeededRng, StoneKind, World};

fn place(players: &mut PlayerSet, team: &str, x: u32, y: u32, orient: Orientation) -> u32 {
    let world = World::empty(10, 10);
    let mut rng = SeededRng::new(1);
    let id = players.spawn(team, &world, &mut rng);
    let p = players.get_mut(id).unwrap();
    p.x = x;
    p.y = y;
    p.orient = orient;
    id
}

#[test]
fn moving_k_cardinals_relative_to_facing() {
    assert_eq!(moving_k(Orientation::North, Orientation::North), 1);
    assert_eq!(moving_k(Orientation::North, Orientation::East), 3);
    assert_eq!(moving_k(Orientation::North, Orientation::South), 5);
    assert_eq!(moving_k(Orientation::North, Orientation::West), 7);

    assert_eq!(moving_k(Orientation::East, Orientation::East), 1);
    assert_eq!(moving_k(Orientation::East, Orientation::South), 3);
    assert_eq!(moving_k(Orientation::East, Orientation::West), 5);
    assert_eq!(moving_k(Orientation::East, Orientation::North), 7);
}

#[test]
fn kick_alone_is_ko() {
    let world = World::empty(5, 5);
    let mut players = PlayerSet::default();
    let kicker = place(&mut players, "a", 2, 2, Orientation::North);
    assert_eq!(apply_kick(kicker, &mut players, &world), KickOutcome::Ko);
}

#[test]
fn kick_pushes_victims_and_leaves_resources() {
    let mut world = World::empty(5, 5);
    world.tile_mut(2, 2).try_add_food();
    world
        .tile_mut(2, 2)
        .try_add_stone(StoneKind::Jade);

    let mut players = PlayerSet::default();
    let kicker = place(&mut players, "a", 2, 2, Orientation::East);
    let victim = place(&mut players, "b", 2, 2, Orientation::North);

    let food_before = world.tile(2, 2).food;
    let jade_before = world.tile(2, 2).has_stone(StoneKind::Jade);

    let outcome = apply_kick(kicker, &mut players, &world);
    assert_eq!(
        outcome,
        KickOutcome::Pushed {
            victims: vec![(victim, 3)] // victim faces N, push E → right = 3
        }
    );

    let v = players.get(victim).unwrap();
    assert_eq!((v.x, v.y), (3, 2));
    assert_eq!(players.get(kicker).unwrap().x, 2);
    assert_eq!(players.get(kicker).unwrap().y, 2);

    assert_eq!(world.tile(2, 2).food, food_before);
    assert_eq!(
        world.tile(2, 2).has_stone(StoneKind::Jade),
        jade_before
    );
    assert!(!world.tile(3, 2).food);
    assert!(!world.tile(3, 2).has_stone(StoneKind::Jade));
}

#[test]
fn kick_wraps_on_torus() {
    let world = World::empty(4, 4);
    let mut players = PlayerSet::default();
    let kicker = place(&mut players, "a", 0, 1, Orientation::West);
    let victim = place(&mut players, "b", 0, 1, Orientation::West);
    let outcome = apply_kick(kicker, &mut players, &world);
    assert!(matches!(outcome, KickOutcome::Pushed { .. }));
    let v = players.get(victim).unwrap();
    assert_eq!((v.x, v.y), (3, 1));
}

#[test]
fn kick_blocked_when_kicker_in_ritual() {
    let world = World::empty(5, 5);
    let mut players = PlayerSet::default();
    let kicker = place(&mut players, "a", 1, 1, Orientation::South);
    let _victim = place(&mut players, "b", 1, 1, Orientation::North);
    players.get_mut(kicker).unwrap().in_ritual = true;
    assert_eq!(apply_kick(kicker, &mut players, &world), KickOutcome::Ko);
}

#[test]
fn kick_blocked_when_victim_in_ritual() {
    let world = World::empty(5, 5);
    let mut players = PlayerSet::default();
    let kicker = place(&mut players, "a", 1, 1, Orientation::South);
    let victim = place(&mut players, "b", 1, 1, Orientation::North);
    players.get_mut(victim).unwrap().in_ritual = true;
    assert_eq!(apply_kick(kicker, &mut players, &world), KickOutcome::Ko);
    assert_eq!(players.get(victim).unwrap().y, 1);
}

#[test]
fn kick_moves_all_sharing_tile() {
    let world = World::empty(6, 6);
    let mut players = PlayerSet::default();
    let kicker = place(&mut players, "a", 3, 3, Orientation::North);
    let v1 = place(&mut players, "b", 3, 3, Orientation::South);
    let v2 = place(&mut players, "c", 3, 3, Orientation::East);
    let _elsewhere = place(&mut players, "d", 0, 0, Orientation::North);

    match apply_kick(kicker, &mut players, &world) {
        KickOutcome::Pushed { victims } => {
            assert_eq!(victims.len(), 2);
            assert!(victims.iter().any(|(id, _)| *id == v1));
            assert!(victims.iter().any(|(id, _)| *id == v2));
        }
        KickOutcome::Ko => panic!("expected ok"),
    }
    assert_eq!(players.get(v1).unwrap().y, 2);
    assert_eq!(players.get(v2).unwrap().y, 2);
    assert_eq!(players.get(kicker).unwrap().y, 3);
}
