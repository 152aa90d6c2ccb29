use zappy_server::player::PlayerSet;
use zappy_server::ritual::{current_level_line, requirements_for, RitualSet, RITUAL_TABLE};
use zappy_server::world::{SeededRng, StoneKind, World};

fn place(players: &mut PlayerSet, world: &World, level: u8, x: u32, y: u32) -> u32 {
    let mut rng = SeededRng::new(1);
    let id = players.spawn("t", world, &mut rng);
    let p = players.get_mut(id).unwrap();
    p.x = x;
    p.y = y;
    p.level = level;
    id
}

#[test]
fn table_matches_subject() {
    assert_eq!(RITUAL_TABLE.len(), 7);
    assert_eq!(requirements_for(1).unwrap().players, 1);
    assert_eq!(requirements_for(1).unwrap().stones, [1, 0, 0, 0, 0, 0]);
    assert_eq!(requirements_for(7).unwrap().players, 6);
    assert_eq!(requirements_for(7).unwrap().stones, [2, 2, 2, 2, 2, 1]);
    assert!(requirements_for(8).is_none());
}

#[test]
fn level1_solo_with_jade_on_tile() {
    let mut world = World::empty(5, 5);
    world.tile_mut(1, 1).try_add_stone(StoneKind::Jade);
    let mut players = PlayerSet::default();
    let a = place(&mut players, &world, 1, 1, 1);
    let mut rituals = RitualSet::new();
    let parts = rituals.try_begin(a, &mut players, &world).unwrap();
    assert_eq!(parts, vec![a]);
    assert!(players.get(a).unwrap().in_ritual);

    let (lvl, still) = rituals.try_complete(a, &mut players, &mut world).unwrap();
    assert_eq!(lvl, 2);
    assert_eq!(still, vec![a]);
    assert_eq!(players.get(a).unwrap().level, 2);
    assert!(!players.get(a).unwrap().in_ritual);
    assert!(!world.tile(1, 1).has_stone(StoneKind::Jade));
}

#[test]
fn level1_fails_without_jade() {
    let world = World::empty(5, 5);
    let mut players = PlayerSet::default();
    let a = place(&mut players, &world, 1, 0, 0);
    let mut rituals = RitualSet::new();
    assert!(rituals.try_begin(a, &mut players, &world).is_err());
}

#[test]
fn level2_needs_two_players_and_three_stones() {
    let mut world = World::empty(5, 5);
    world.tile_mut(2, 2).try_add_stone(StoneKind::Jade);
    world.tile_mut(2, 2).try_add_stone(StoneKind::Peridot);
    world.tile_mut(2, 2).try_add_stone(StoneKind::Amber);
    let mut players = PlayerSet::default();
    let a = place(&mut players, &world, 2, 2, 2);
    let b = place(&mut players, &world, 2, 2, 2);
    let mut rituals = RitualSet::new();
    assert!(rituals.try_begin(a, &mut players, &world).is_ok());
    let (lvl, still) = rituals.try_complete(a, &mut players, &mut world).unwrap();
    assert_eq!(lvl, 3);
    assert_eq!(still.len(), 2);
    assert_eq!(players.get(a).unwrap().level, 3);
    assert_eq!(players.get(b).unwrap().level, 3);
}

#[test]
fn inventory_stones_count_toward_pool() {
    let mut world = World::empty(4, 4);
    let mut players = PlayerSet::default();
    let a = place(&mut players, &world, 1, 0, 0);
    players
        .get_mut(a)
        .unwrap()
        .inventory
        .add_stone(StoneKind::Jade);
    let mut rituals = RitualSet::new();
    assert!(rituals.try_begin(a, &mut players, &world).is_ok());
    let _ = rituals.try_complete(a, &mut players, &mut world).unwrap();
    assert_eq!(players.get(a).unwrap().inventory.stone(StoneKind::Jade), 0);
}

#[test]
fn mid_ritual_alone_cancels() {
    let mut world = World::empty(5, 5);
    world.tile_mut(1, 1).try_add_stone(StoneKind::Jade);
    world.tile_mut(1, 1).try_add_stone(StoneKind::Peridot);
    world.tile_mut(1, 1).try_add_stone(StoneKind::Amber);
    let mut players = PlayerSet::default();
    let a = place(&mut players, &world, 2, 1, 1);
    let b = place(&mut players, &world, 2, 1, 1);
    let mut rituals = RitualSet::new();
    rituals.try_begin(a, &mut players, &world).unwrap();
    players.remove(b);
    rituals.on_player_gone(b, &mut players);
    assert!(rituals.get_by_starter(a).is_none());
    assert!(!players.get(a).unwrap().in_ritual);
    assert!(rituals.try_complete(a, &mut players, &mut world).is_err());
    assert_eq!(players.get(a).unwrap().level, 2);
}

#[test]
fn current_level_line_format() {
    assert_eq!(current_level_line(3), "current level : 3\n");
}
