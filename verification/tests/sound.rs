use zappy_server::player::{Orientation, PlayerSet};
use zappy_server::sound::{broadcast_targets, message_line, sound_k, toroidal_delta};
use zappy_server::world::{SeededRng, World};

fn place(players: &mut PlayerSet, x: u32, y: u32, orient: Orientation) -> u32 {
    let world = World::empty(20, 20);
    let mut rng = SeededRng::new(1);
    let id = players.spawn("t", &world, &mut rng);
    let p = players.get_mut(id).unwrap();
    p.x = x;
    p.y = y;
    p.orient = orient;
    id
}

#[test]
fn sound_same_tile_is_zero() {
    let world = World::empty(10, 10);
    let mut players = PlayerSet::default();
    let a = place(&mut players, 3, 3, Orientation::North);
    let b = place(&mut players, 3, 3, Orientation::East);
    assert_eq!(sound_k(players.get(b).unwrap(), 3, 3, &world), 0);
    let targets = broadcast_targets(a, &players, &world);
    assert_eq!(targets, vec![(b, 0)]);
}

#[test]
fn cardinals_when_facing_north() {
    let world = World::empty(10, 10);
    let mut players = PlayerSet::default();
    let recv = place(&mut players, 5, 5, Orientation::North);
    let r = players.get(recv).unwrap();
    assert_eq!(sound_k(r, 5, 4, &world), 1); // north of recv
    assert_eq!(sound_k(r, 6, 5, &world), 3); // east
    assert_eq!(sound_k(r, 5, 6, &world), 5); // south
    assert_eq!(sound_k(r, 4, 5, &world), 7); // west
    assert_eq!(sound_k(r, 6, 4, &world), 2); // NE
    assert_eq!(sound_k(r, 6, 6, &world), 4); // SE
    assert_eq!(sound_k(r, 4, 6, &world), 6); // SW
    assert_eq!(sound_k(r, 4, 4, &world), 8); // NW
}

#[test]
fn facing_east_rotates_sectors() {
    let world = World::empty(10, 10);
    let mut players = PlayerSet::default();
    // Facing east: front is +x → world east should be K=1
    let recv = place(&mut players, 5, 5, Orientation::East);
    let r = players.get(recv).unwrap();
    assert_eq!(sound_k(r, 6, 5, &world), 1);
    assert_eq!(sound_k(r, 5, 6, &world), 3); // south = right when facing east
    assert_eq!(sound_k(r, 4, 5, &world), 5); // west = behind
    assert_eq!(sound_k(r, 5, 4, &world), 7); // north = left
}

#[test]
fn chooses_shortest_toroidal_path() {
    let world = World::empty(10, 10);
    let mut players = PlayerSet::default();
    // Receiver at (0,0) facing north; sender at (9,0) → wrap west → K=7
    let recv = place(&mut players, 0, 0, Orientation::North);
    let r = players.get(recv).unwrap();
    assert_eq!(sound_k(r, 9, 0, &world), 7);
    // Sender at (0,9) → wrap north → K=1
    assert_eq!(sound_k(r, 0, 9, &world), 1);
}

#[test]
fn toroidal_delta_prefers_short_side() {
    assert_eq!(toroidal_delta(0, 1, 10), 1);
    assert_eq!(toroidal_delta(0, 9, 10), -1);
    assert_eq!(toroidal_delta(5, 5, 10), 0);
    // Exactly half on even size → prefer negative
    assert_eq!(toroidal_delta(0, 5, 10), -5);
}

#[test]
fn message_line_format() {
    assert_eq!(message_line(2, "hello"), "message 2,hello\n");
    assert_eq!(message_line(0, ""), "message 0,\n");
    assert_eq!(message_line(4, "a b c"), "message 4,a b c\n");
}

#[test]
fn broadcast_skips_sender() {
    let world = World::empty(8, 8);
    let mut players = PlayerSet::default();
    let sender = place(&mut players, 1, 1, Orientation::North);
    let other = place(&mut players, 2, 1, Orientation::North);
    let targets = broadcast_targets(sender, &players, &world);
    assert_eq!(targets.len(), 1);
    assert_eq!(targets[0].0, other);
    assert_eq!(targets[0].1, 7); // sender is west of other? other at (2,1), sender (1,1)
                                 // sound from sender to other: from other's view sender is at west → 7
}
