use zappy_server::player::{Orientation, PlayerSet};
use zappy_server::vision::{see_reply, vision_coords, vision_tile_count};
use zappy_server::world::{SeededRng, StoneKind, World};

#[test]
fn tile_counts_match_subject_levels() {
    assert_eq!(vision_tile_count(1), 4);
    assert_eq!(vision_tile_count(2), 9);
    assert_eq!(vision_tile_count(3), 16);
    assert_eq!(vision_tile_count(8), 81);
}

#[test]
fn level1_north_offsets() {
    let world = World::empty(20, 20);
    let coords = vision_coords(1, 10, 10, Orientation::North, &world);
    assert_eq!(coords.len(), 4);
    assert_eq!(coords[0], (10, 10));
    assert_eq!(coords[1], (9, 9));
    assert_eq!(coords[2], (10, 9));
    assert_eq!(coords[3], (11, 9));
}

#[test]
fn vision_grows_with_level() {
    let world = World::empty(30, 30);
    let c1 = vision_coords(1, 15, 15, Orientation::East, &world);
    let c2 = vision_coords(2, 15, 15, Orientation::East, &world);
    assert_eq!(c1.len(), 4);
    assert_eq!(c2.len(), 9);
    assert_eq!(&c2[..4], &c1[..]);
}

#[test]
fn vision_wraps_on_torus() {
    let world = World::empty(5, 5);
    let coords = vision_coords(1, 0, 0, Orientation::West, &world);
    assert_eq!(coords[0], (0, 0));
    assert_eq!(coords[2], (4, 0));
}

#[test]
fn see_omits_self_and_formats_resources() {
    let mut world = World::empty(8, 8);
    world.tile_mut(3, 3).try_add_food();
    world.tile_mut(2, 2).try_add_stone(StoneKind::Amber);
    world.tile_mut(4, 2).try_add_stone(StoneKind::Garnet);
    world.tile_mut(4, 2).try_add_stone(StoneKind::Jade);

    let mut rng = SeededRng::new(1);
    let mut players = PlayerSet::new();
    let vid = players.spawn("a", &world, &mut rng);
    let oid = players.spawn("b", &world, &mut rng);
    {
        let v = players.get_mut(vid).unwrap();
        v.x = 3;
        v.y = 3;
        v.orient = Orientation::North;
        v.level = 1;
    }
    {
        let o = players.get_mut(oid).unwrap();
        o.x = 2;
        o.y = 2;
    }

    let reply = see_reply(players.get(vid).unwrap(), &world, &players);
    let inner = reply.trim_start_matches('{').trim_end_matches("}\n");
    let tiles: Vec<&str> = inner.split(", ").collect();
    assert_eq!(tiles.len(), 4);
    assert_eq!(tiles[0], "food");
    assert_eq!(tiles[1], "player amber");
    assert_eq!(tiles[2], ""); // forward
    assert_eq!(tiles[3], "jade garnet"); // forward-right
}

#[test]
fn empty_level1_see_has_four_empty_slots() {
    let world = World::empty(10, 10);
    let mut rng = SeededRng::new(0);
    let mut players = PlayerSet::new();
    let id = players.spawn("t", &world, &mut rng);
    players.get_mut(id).unwrap().level = 1;
    assert_eq!(
        see_reply(players.get(id).unwrap(), &world, &players),
        "{, , , }\n"
    );
}
