use zappy_server::broadcast::{apply_broadcast, direction_k, shortest_delta, SoundMessage};
use zappy_server::player::{Orientation, PlayerSet};
use zappy_server::world::{SeededRng, World};

fn place(players: &mut PlayerSet, world: &World, x: u32, y: u32, orient: Orientation) -> u32 {
    let mut rng = SeededRng::new(7);
    let id = players.spawn("t", world, &mut rng);
    let p = players.get_mut(id).unwrap();
    p.x = x;
    p.y = y;
    p.orient = orient;
    id
}

#[test]
fn broadcast_same_tile_is_zero() {
    assert_eq!(direction_k(Orientation::North, 0, 0), 0);
    assert_eq!(direction_k(Orientation::East, 0, 0), 0);
}

#[test]
fn cardinals_relative_to_north_facing() {
    // Facing North (up = -y). Source directly ahead is north (dy < 0).
    assert_eq!(direction_k(Orientation::North, 0, -1), 1); // front
    assert_eq!(direction_k(Orientation::North, -1, 0), 3); // left (west)
    assert_eq!(direction_k(Orientation::North, 0, 1), 5); // back (south)
    assert_eq!(direction_k(Orientation::North, 1, 0), 7); // right (east)
}

#[test]
fn diagonals_are_counter_clockwise() {
    // North-facing: front-left, back-left, back-right, front-right.
    assert_eq!(direction_k(Orientation::North, -1, -1), 2);
    assert_eq!(direction_k(Orientation::North, -1, 1), 4);
    assert_eq!(direction_k(Orientation::North, 1, 1), 6);
    assert_eq!(direction_k(Orientation::North, 1, -1), 8);
}

#[test]
fn front_is_one_for_every_facing() {
    assert_eq!(direction_k(Orientation::North, 0, -1), 1);
    assert_eq!(direction_k(Orientation::East, 1, 0), 1);
    assert_eq!(direction_k(Orientation::South, 0, 1), 1);
    assert_eq!(direction_k(Orientation::West, -1, 0), 1);
}

#[test]
fn right_is_seven_for_every_facing() {
    // Source to the receiver's right hand relative to facing.
    assert_eq!(direction_k(Orientation::North, 1, 0), 7); // east
    assert_eq!(direction_k(Orientation::East, 0, 1), 7); // south
    assert_eq!(direction_k(Orientation::South, -1, 0), 7); // west
    assert_eq!(direction_k(Orientation::West, 0, -1), 7); // north
}

#[test]
fn shortest_delta_wraps_to_nearest() {
    // Width 10: from 9 to 0 is +1 (wrap), not -9.
    assert_eq!(shortest_delta(9, 0, 10), 1);
    assert_eq!(shortest_delta(0, 9, 10), -1);
    assert_eq!(shortest_delta(2, 5, 10), 3);
    // Exact halfway resolves positive.
    assert_eq!(shortest_delta(0, 5, 10), 5);
}

#[test]
fn broadcast_uses_shortest_toroidal_path() {
    // 10x10 torus. Source at x=0; receiver at x=9 facing East.
    // Shortest path from receiver(9) to source(0) is +1 (east) → front → 1.
    let world = World::empty(10, 10);
    let mut players = PlayerSet::default();
    let source = place(&mut players, &world, 0, 0, Orientation::North);
    let recv = place(&mut players, &world, 9, 0, Orientation::East);

    let msgs = apply_broadcast(source, &players, &world);
    assert_eq!(msgs.len(), 1);
    assert_eq!(msgs[0].player_id, recv);
    assert_eq!(msgs[0].k, 1);
}

#[test]
fn same_tile_receiver_hears_zero() {
    let world = World::empty(8, 8);
    let mut players = PlayerSet::default();
    let source = place(&mut players, &world, 3, 3, Orientation::North);
    let recv = place(&mut players, &world, 3, 3, Orientation::South);
    let msgs = apply_broadcast(source, &players, &world);
    assert_eq!(
        msgs,
        vec![SoundMessage {
            player_id: recv,
            k: 0
        }]
    );
}

#[test]
fn broadcaster_excluded_and_all_others_reached() {
    let world = World::empty(12, 12);
    let mut players = PlayerSet::default();
    let source = place(&mut players, &world, 6, 6, Orientation::North);
    let a = place(&mut players, &world, 6, 3, Orientation::North); // north of src
    let b = place(&mut players, &world, 9, 6, Orientation::North); // east of src

    let msgs = apply_broadcast(source, &players, &world);
    assert_eq!(msgs.len(), 2);
    assert!(msgs.iter().all(|m| m.player_id != source));

    let ka = msgs.iter().find(|m| m.player_id == a).unwrap().k;
    let kb = msgs.iter().find(|m| m.player_id == b).unwrap().k;
    // `a` sits north of the source, so the sound comes from the south =
    // behind a north-facing listener → 5.
    assert_eq!(ka, 5);
    // `b` sits east of the source, sound comes from the west = left of a
    // north-facing listener → 3.
    assert_eq!(kb, 3);
}

#[test]
fn missing_source_yields_no_messages() {
    let world = World::empty(4, 4);
    let players = PlayerSet::default();
    assert!(apply_broadcast(999, &players, &world).is_empty());
}
