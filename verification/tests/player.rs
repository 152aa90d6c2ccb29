use zappy_server::player::{
    Inventory, Orientation, Player, PlayerSet, FOOD_LIFE_TU, STARTING_FOOD, STARTING_LEVEL, STARTING_LIFE_TU,
};
use zappy_server::world::{SeededRng, StoneKind, World};

#[test]
fn starting_constants_match_subject() {
    assert_eq!(FOOD_LIFE_TU, 126);
    assert_eq!(STARTING_FOOD, 10);
    assert_eq!(STARTING_LIFE_TU, 1260);
    assert_eq!(STARTING_LEVEL, 1);
}

#[test]
fn starting_inventory_is_ten_food_zero_stones() {
    let inv = Inventory::starting();
    assert_eq!(inv.life_tu, 1260);
    assert_eq!(inv.total_stones(), 0);
    for kind in StoneKind::ALL {
        assert_eq!(inv.stone(kind), 0);
    }
}

#[test]
fn inventory_reply_lists_life_and_stones() {
    let world = World::empty(2, 2);
    let mut rng = SeededRng::new(1);
    let p = Player::spawn(0, "t", &world, &mut rng);
    let reply = p.inventory_reply();
    assert!(reply.starts_with("{food 1260,"));
    assert!(reply.contains("jade 0"));
    assert!(reply.ends_with("}\n"));
}

#[test]
fn spawn_sets_level_team_and_loadout() {
    let world = World::empty(8, 6);
    let mut rng = SeededRng::new(1);
    let p = Player::spawn(0, "alpha", &world, &mut rng);
    assert_eq!(p.id, 0);
    assert_eq!(p.team, "alpha");
    assert_eq!(p.level, 1);
    assert!(p.has_starting_loadout());
    assert!(p.x < 8 && p.y < 6);
    assert!(Orientation::ALL.contains(&p.orient));
    assert_eq!(p.queue.pending_count(), 0);
}

#[test]
fn player_set_spawn_and_remove_tracks_team() {
    let world = World::empty(4, 4);
    let mut rng = SeededRng::new(9);
    let mut set = PlayerSet::new();
    let a = set.spawn("red", &world, &mut rng);
    let b = set.spawn("red", &world, &mut rng);
    let c = set.spawn("blue", &world, &mut rng);
    assert_eq!(set.len(), 3);
    assert_eq!(set.count_on_team("red"), 2);
    assert_eq!(set.count_on_team("blue"), 1);
    assert!(set.get(a).unwrap().has_starting_loadout());
    assert!(set.get(b).unwrap().has_starting_loadout());
    assert_eq!(set.get(c).unwrap().team, "blue");
    set.remove(a);
    assert_eq!(set.count_on_team("red"), 1);
    assert_eq!(set.len(), 2);
}

#[test]
fn turns_cycle_cardinals() {
    assert_eq!(Orientation::North.turn_right(), Orientation::East);
    assert_eq!(Orientation::East.turn_right(), Orientation::South);
    assert_eq!(Orientation::South.turn_right(), Orientation::West);
    assert_eq!(Orientation::West.turn_right(), Orientation::North);

    assert_eq!(Orientation::North.turn_left(), Orientation::West);
    assert_eq!(Orientation::West.turn_left(), Orientation::South);
    assert_eq!(Orientation::South.turn_left(), Orientation::East);
    assert_eq!(Orientation::East.turn_left(), Orientation::North);
}

#[test]
fn advance_moves_forward_and_wraps_toroidally() {
    let world = World::empty(5, 4);
    let mut rng = SeededRng::new(1);
    let mut p = Player::spawn(0, "t", &world, &mut rng);
    p.x = 4;
    p.y = 2;
    p.orient = Orientation::East;
    p.advance(&world);
    assert_eq!((p.x, p.y), (0, 2)); // right edge -> left

    p.orient = Orientation::West;
    p.advance(&world);
    assert_eq!((p.x, p.y), (4, 2));

    p.x = 1;
    p.y = 0;
    p.orient = Orientation::North;
    p.advance(&world);
    assert_eq!((p.x, p.y), (1, 3)); // top -> bottom

    p.orient = Orientation::South;
    p.advance(&world);
    assert_eq!((p.x, p.y), (1, 0));
}

#[test]
fn left_and_right_only_change_facing() {
    let world = World::empty(3, 3);
    let mut rng = SeededRng::new(2);
    let mut p = Player::spawn(0, "t", &world, &mut rng);
    p.x = 1;
    p.y = 1;
    p.orient = Orientation::North;
    p.turn_right();
    assert_eq!(p.orient, Orientation::East);
    assert_eq!((p.x, p.y), (1, 1));
    p.turn_left();
    assert_eq!(p.orient, Orientation::North);
    assert_eq!((p.x, p.y), (1, 1));
}

#[test]
fn spawn_positions_stay_inside_world() {
    let world = World::empty(3, 5);
    let mut rng = SeededRng::new(42);
    let mut set = PlayerSet::new();
    for _ in 0..50 {
        let id = set.spawn("t", &world, &mut rng);
        let p = set.get(id).unwrap();
        assert!(p.x < 3 && p.y < 5);
    }
}

#[test]
fn pick_and_drop_food_and_stones() {
    let mut world = World::empty(4, 4);
    world.tile_mut(1, 1).try_add_food();
    world.tile_mut(1, 1).try_add_stone(StoneKind::Amber);

    let mut rng = SeededRng::new(3);
    let mut p = Player::spawn(0, "t", &world, &mut rng);
    p.x = 1;
    p.y = 1;

    assert!(p.pick_object("food", &mut world));
    assert_eq!(p.inventory.life_tu, STARTING_LIFE_TU + FOOD_LIFE_TU);
    assert!(!world.tile(1, 1).food);
    assert!(!p.pick_object("food", &mut world));

    assert!(p.pick_object("amber", &mut world));
    assert_eq!(p.inventory.amber, 1);
    assert!(!world.tile(1, 1).has_stone(StoneKind::Amber));

    assert!(p.drop_object("amber", &mut world));
    assert_eq!(p.inventory.amber, 0);
    assert!(world.tile(1, 1).has_stone(StoneKind::Amber));

    assert!(p.drop_object("food", &mut world));
    assert_eq!(p.inventory.life_tu, STARTING_LIFE_TU);
    assert!(world.tile(1, 1).food);

    assert!(!p.pick_object("nope", &mut world));
    assert!(!p.drop_object("jade", &mut world));
}

#[test]
fn tick_life_starves_at_zero() {
    let world = World::empty(2, 2);
    let mut rng = SeededRng::new(1);
    let mut p = Player::spawn(0, "t", &world, &mut rng);
    assert!(!p.tick_life(100));
    assert_eq!(p.inventory.life_tu, STARTING_LIFE_TU - 100);
    assert!(p.tick_life(STARTING_LIFE_TU));
    assert_eq!(p.inventory.life_tu, 0);
    assert!(p.tick_life(1));
}

#[test]
fn eating_extends_life_before_starvation() {
    let world = World::empty(2, 2);
    let mut rng = SeededRng::new(1);
    let mut p = Player::spawn(0, "t", &world, &mut rng);
    p.inventory.life_tu = 50;
    p.inventory.add_food_life();
    assert_eq!(p.inventory.life_tu, 50 + FOOD_LIFE_TU);
    assert!(!p.tick_life(100));
    assert_eq!(p.inventory.life_tu, 50 + FOOD_LIFE_TU - 100);
}
