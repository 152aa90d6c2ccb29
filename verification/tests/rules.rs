use std::io::{Error as IoError, ErrorKind};
use std::time::Instant;

use zappy_server::cli::{parse, CliError};
use zappy_server::commands::{CmdQueue, Command};
use zappy_server::harden::{format_serve_error, serve_error_text};
use zappy_server::player::{Player, PlayerSet, STARTING_LIFE_TU};
use zappy_server::ritual::{
    current_level_line, eligible_on_tile, requirements_for, RitualSet, EVOLUTION_IN_PROGRESS,
};
use zappy_server::time::action_duration;
use zappy_server::world::{SeededRng, StoneKind, World};

fn args(tokens: &[&str]) -> Vec<String> {
    tokens.iter().map(|s| (*s).to_string()).collect()
}

fn put(players: &mut PlayerSet, world: &World, level: u8, x: u32, y: u32) -> u32 {
    let mut rng = SeededRng::new(3);
    let id = players.spawn("t", world, &mut rng);
    let p = players.get_mut(id).unwrap();
    p.x = x;
    p.y = y;
    p.level = level;
    id
}

#[test]
fn cli_messages_for_every_error() {
    assert_eq!(CliError::NoArgs.message(), "error: no arguments given");
    assert_eq!(
        CliError::MissingValue("-p".to_string()).message(),
        "error: missing value for -p"
    );
    assert_eq!(
        CliError::InvalidValue { flag: "-x".to_string(), value: "0".to_string() }.message(),
        "error: invalid value '0' for -x"
    );
    assert_eq!(CliError::NoTeams.message(), "error: -n requires at least one team name");
    assert_eq!(
        CliError::DuplicateTeam("a".to_string()).message(),
        "error: duplicate team name 'a'"
    );
    assert_eq!(CliError::MissingFlag("-c").message(), "error: missing required flag -c");
    assert_eq!(
        CliError::DuplicateFlag("-t".to_string()).message(),
        "error: flag -t given more than once"
    );
    assert_eq!(CliError::Unknown("zz".to_string()).message(), "error: unknown argument 'zz'");
}

#[test]
fn cli_port_bounds_and_plus_sign() {
    let top = parse(&args(&["-p", "65535", "-x", "1", "-y", "1", "-c", "1", "-n", "a"])).unwrap();
    assert_eq!(top.port, 65535);
    let plus = parse(&args(&["-p", "+80", "-x", "+2", "-y", "1", "-c", "1", "-n", "a"])).unwrap();
    assert_eq!((plus.port, plus.width), (80, 2));
    assert_eq!(
        parse(&args(&["-p", "65536", "-x", "1", "-y", "1", "-c", "1", "-n", "a"])),
        Err(CliError::InvalidValue { flag: "-p".to_string(), value: "65536".to_string() })
    );
    assert_eq!(
        parse(&args(&["-p", "0", "-x", "1", "-y", "1", "-c", "1", "-n", "a"])),
        Err(CliError::InvalidValue { flag: "-p".to_string(), value: "0".to_string() })
    );
    assert_eq!(
        parse(&args(&["-p", "1", "-x", "4294967296", "-y", "1", "-c", "1", "-n", "a"])),
        Err(CliError::InvalidValue { flag: "-x".to_string(), value: "4294967296".to_string() })
    );
}

#[test]
fn cli_lone_dash_is_a_team_and_flags_are_checked_in_order() {
    let cfg = parse(&args(&["-p", "1", "-x", "1", "-y", "1", "-c", "1", "-n", "-"])).unwrap();
    assert_eq!(cfg.teams, vec!["-".to_string()]);
    assert_eq!(
        parse(&args(&["-p", "1", "-c", "1", "-n", "a"])),
        Err(CliError::MissingFlag("-x"))
    );
    assert_eq!(
        parse(&args(&["-p", "1", "-x", "1", "-y", "1", "-n", "a"])),
        Err(CliError::MissingFlag("-c"))
    );
    assert_eq!(
        parse(&args(&["-p", "1", "-x", "1", "-y", "1", "-c", "1", "-n", "a", "-n", "b"])),
        Err(CliError::DuplicateFlag("-n".to_string()))
    );
    assert_eq!(
        parse(&args(&["-p", "1", "-x", "1", "-y", "1", "-c", "1", "-n", ""])),
        Err(CliError::InvalidValue { flag: "-n".to_string(), value: String::new() })
    );
    assert_eq!(
        parse(&args(&["stray"])),
        Err(CliError::Unknown("stray".to_string()))
    );
}

#[test]
fn serve_error_text_shapes() {
    assert_eq!(serve_error_text(true, "whatever"), "ERROR : Address already in use");
    assert_eq!(serve_error_text(false, "denied"), "server: denied");
    let err = IoError::new(ErrorKind::PermissionDenied, "denied");
    assert_eq!(format_serve_error(&err), "server: denied");
}

#[test]
fn generation_and_respawn_keep_tile_rules_on_many_seeds() {
    for seed in 0..20u64 {
        let mut world = World::generate(9, 7, seed);
        assert!(world.assert_invariants());
        for tile in world.tiles() {
            assert!(tile.stone_count() <= 3);
        }
        for tile in world.tiles_mut() {
            tile.food = false;
        }
        let mut rng = SeededRng::new(seed);
        world.respawn_tick(&mut rng);
        assert!(world.assert_invariants());
    }
}

#[test]
fn pick_then_drop_restores_tile_and_inventory() {
    let mut world = World::empty(3, 3);
    world.tile_mut(1, 1).try_add_stone(StoneKind::Garnet);
    let before = *world.tile(1, 1);
    let mut rng = SeededRng::new(4);
    let mut p = Player::spawn(0, "t", &world, &mut rng);
    p.x = 1;
    p.y = 1;
    let inv = p.inventory.clone();
    assert!(p.pick_object("garnet", &mut world));
    assert!(p.drop_object("garnet", &mut world));
    assert_eq!(*world.tile(1, 1), before);
    assert_eq!(p.inventory, inv);
    assert_eq!(p.inventory.life_tu, STARTING_LIFE_TU);
}

#[test]
fn ritual_begin_refusals() {
    let mut world = World::empty(5, 5);
    world.tile_mut(0, 0).try_add_stone(StoneKind::Jade);
    let mut players = PlayerSet::default();
    let a = put(&mut players, &world, 1, 0, 0);
    let top = put(&mut players, &world, 8, 1, 1);
    let mut rituals = RitualSet::new();
    assert!(rituals.try_begin(999, &mut players, &world).is_err());
    assert!(rituals.try_begin(top, &mut players, &world).is_err());
    assert!(rituals.try_begin(a, &mut players, &world).is_ok());
    // A starter cannot begin twice, and a player in a ritual cannot start one.
    assert!(rituals.try_begin(a, &mut players, &world).is_err());
    assert!(players.get(a).unwrap().in_ritual);
    assert!(!players.get(top).unwrap().in_ritual);
}

#[test]
fn ritual_takes_required_count_starter_first() {
    let mut world = World::empty(6, 6);
    world.tile_mut(2, 2).try_add_stone(StoneKind::Jade);
    world.tile_mut(2, 2).try_add_stone(StoneKind::Peridot);
    world.tile_mut(2, 2).try_add_stone(StoneKind::Amber);
    let mut players = PlayerSet::default();
    let a = put(&mut players, &world, 2, 2, 2);
    let b = put(&mut players, &world, 2, 2, 2);
    let c = put(&mut players, &world, 2, 2, 2);
    let elsewhere = put(&mut players, &world, 2, 3, 2);
    assert_eq!(eligible_on_tile(&players, 2, 2, 2), vec![a, b, c]);
    let mut rituals = RitualSet::new();
    let parts = rituals.try_begin(c, &mut players, &world).unwrap();
    assert_eq!(parts, vec![c, a]);
    assert_eq!(rituals.get_by_starter(c).unwrap().participants, vec![c, a]);
    assert!(!players.get(b).unwrap().in_ritual);
    assert!(!players.get(elsewhere).unwrap().in_ritual);
    let (lvl, still) = rituals.try_complete(c, &mut players, &mut world).unwrap();
    assert_eq!((lvl, still), (3, vec![c, a]));
    assert_eq!(players.get(b).unwrap().level, 2);
    assert_eq!(world.tile(2, 2).stone_count(), 0);
    assert!(rituals.get_by_starter(c).is_none());
}

#[test]
fn ritual_consumes_exactly_from_tile_then_inventories() {
    // Level 3 -> 4 needs 2 jade, 1 amber, 2 garnet and two players.
    let mut world = World::empty(4, 4);
    world.tile_mut(1, 2).try_add_stone(StoneKind::Jade);
    world.tile_mut(1, 2).try_add_stone(StoneKind::Amber);
    let mut players = PlayerSet::default();
    let a = put(&mut players, &world, 3, 1, 2);
    let b = put(&mut players, &world, 3, 1, 2);
    {
        let inv = &mut players.get_mut(a).unwrap().inventory;
        inv.add_stone(StoneKind::Jade);
        inv.add_stone(StoneKind::Jade);
        inv.add_stone(StoneKind::Garnet);
        inv.add_stone(StoneKind::Amber);
    }
    {
        let inv = &mut players.get_mut(b).unwrap().inventory;
        inv.add_stone(StoneKind::Garnet);
        inv.add_stone(StoneKind::Garnet);
    }
    let mut rituals = RitualSet::new();
    assert_eq!(rituals.try_begin(a, &mut players, &world).unwrap(), vec![a, b]);
    let (lvl, _) = rituals.try_complete(a, &mut players, &mut world).unwrap();
    assert_eq!(lvl, 4);
    assert!(!world.tile(1, 2).has_stone(StoneKind::Jade));
    assert!(!world.tile(1, 2).has_stone(StoneKind::Amber));
    let pa = &players.get(a).unwrap().inventory;
    assert_eq!((pa.jade, pa.garnet, pa.amber), (1, 0, 1));
    let pb = &players.get(b).unwrap().inventory;
    assert_eq!(pb.garnet, 1);
    assert_eq!(players.get(b).unwrap().level, 4);
}

#[test]
fn ritual_fails_when_participant_walks_away_and_cancel_clears_flags() {
    let mut world = World::empty(5, 5);
    world.tile_mut(1, 1).try_add_stone(StoneKind::Jade);
    world.tile_mut(1, 1).try_add_stone(StoneKind::Peridot);
    world.tile_mut(1, 1).try_add_stone(StoneKind::Amber);
    let mut players = PlayerSet::default();
    let a = put(&mut players, &world, 2, 1, 1);
    let b = put(&mut players, &world, 2, 1, 1);
    let mut rituals = RitualSet::new();
    rituals.try_begin(a, &mut players, &world).unwrap();
    players.get_mut(b).unwrap().x = 2;
    assert!(rituals.try_complete(a, &mut players, &mut world).is_err());
    assert!(!players.get(a).unwrap().in_ritual);
    assert!(!players.get(b).unwrap().in_ritual);
    assert!(world.tile(1, 1).has_stone(StoneKind::Jade));
    assert_eq!(players.get(a).unwrap().level, 2);

    players.get_mut(b).unwrap().x = 1;
    rituals.try_begin(b, &mut players, &world).unwrap();
    assert!(players.get(a).unwrap().in_ritual);
    rituals.cancel_starter(b, &mut players);
    assert!(rituals.get_by_starter(b).is_none());
    assert!(!players.get(a).unwrap().in_ritual);
    assert!(!players.get(b).unwrap().in_ritual);
}

#[test]
fn ritual_survives_departure_of_outsider() {
    let mut world = World::empty(5, 5);
    world.tile_mut(3, 3).try_add_stone(StoneKind::Jade);
    let mut players = PlayerSet::default();
    let a = put(&mut players, &world, 1, 3, 3);
    let other = put(&mut players, &world, 1, 0, 0);
    let mut rituals = RitualSet::new();
    rituals.try_begin(a, &mut players, &world).unwrap();
    players.remove(other);
    rituals.on_player_gone(other, &mut players);
    assert_eq!(rituals.get_by_starter(a).unwrap().participants, vec![a]);
    assert!(players.get(a).unwrap().in_ritual);
    assert!(rituals.try_complete(a, &mut players, &mut world).is_ok());
}

#[test]
fn ritual_table_rows_and_lines() {
    for level in 1..=7u8 {
        let req = requirements_for(level).unwrap();
        assert_eq!(req.from_level, level);
        assert!(req.players >= 1);
    }
    assert!(requirements_for(0).is_none());
    assert_eq!(requirements_for(4).unwrap().stones, [1, 1, 2, 0, 1, 0]);
    assert_eq!(current_level_line(10), "current level : 10\n");
    assert_eq!(&EVOLUTION_IN_PROGRESS, b"evolution in progress\n");
}

#[test]
fn ritual_completion_counts_only_the_chosen_participants() {
    // The pool at the start counts every eligible player on the square, but
    // completion counts only the participants taken: here the jade is
    // carried by an eligible player who was not needed.
    let mut world = World::empty(4, 4);
    let mut players = PlayerSet::default();
    let a = put(&mut players, &world, 1, 2, 2);
    let b = put(&mut players, &world, 1, 2, 2);
    players.get_mut(b).unwrap().inventory.add_stone(StoneKind::Jade);
    let mut rituals = RitualSet::new();
    assert_eq!(rituals.try_begin(a, &mut players, &world).unwrap(), vec![a]);
    assert!(rituals.try_complete(a, &mut players, &mut world).is_err());
    assert_eq!(players.get(a).unwrap().level, 1);
    assert_eq!(players.get(b).unwrap().inventory.jade, 1);
}

#[test]
fn queue_checked_variants_match_plain_ones() {
    let mut q = CmdQueue::new();
    let start = Instant::now();
    assert_eq!(q.try_enqueue_checked(Command::Inventory, start, 100), Some(true));
    assert_eq!(q.try_enqueue_checked(Command::Advance, start, 100), Some(true));
    assert_eq!(q.pending_count(), 2);
    assert_eq!(q.busy_until(), Some(start + action_duration(100, 1)));
    assert_eq!(q.poll_complete_checked(start, 100), Some(None));
    let later = start + action_duration(100, 1);
    assert_eq!(q.poll_complete_checked(later, 100), Some(Some(Command::Inventory)));
    assert_eq!(q.busy_until(), Some(later + action_duration(100, 7)));
    assert_eq!(q.pending_count(), 1);
}

#[test]
fn spawn_files_new_player_even_after_an_id_is_changed() {
    let world = World::empty(3, 3);
    let mut rng = SeededRng::new(5);
    let mut players = PlayerSet::new();
    let a = players.spawn("t", &world, &mut rng);
    assert_eq!(a, 0);
    players.get_mut(a).unwrap().id = 1;
    let b = players.spawn("t", &world, &mut rng);
    assert_eq!(b, 1);
    assert_eq!(players.len(), 2);
    assert_eq!(players.get(0).unwrap().id, 1);
    assert_eq!(players.get(1).unwrap().id, 1);
    assert!(players.get(1).unwrap().has_starting_loadout());
}

#[test]
fn successive_spawns_count_up() {
    let world = World::empty(4, 4);
    let mut rng = SeededRng::new(8);
    let mut players = PlayerSet::new();
    for expected in 0..5u32 {
        assert!(players.get(expected).is_none());
        assert_eq!(players.spawn("t", &world, &mut rng), expected);
        assert_eq!(players.len(), expected as usize + 1);
    }
    players.remove(2);
    assert_eq!(players.spawn("t", &world, &mut rng), 5);
    assert_eq!(players.len(), 5);
}

#[test]
fn shuffle_keeps_every_element() {
    let mut rng = SeededRng::new(11);
    let mut v: Vec<u32> = (0..20).collect();
    rng.shuffle(&mut v);
    let mut sorted = v.clone();
    sorted.sort();
    assert_eq!(sorted, (0..20).collect::<Vec<u32>>());
}

#[test]
fn generation_meets_the_density_targets() {
    // 20 x 20 = 400 squares: food 200, jade 120, peridot 100, amber 80, and
    // at most 60 amethyst, 40 garnet, 20 ammolite.
    for seed in [1u64, 42, 2026] {
        let world = World::generate(20, 20, seed);
        assert_eq!(world.count_food(), 200);
        assert_eq!(world.count_stone(StoneKind::Jade), 120);
        assert_eq!(world.count_stone(StoneKind::Peridot), 100);
        assert_eq!(world.count_stone(StoneKind::Amber), 80);
        assert!(world.count_stone(StoneKind::Amethyst) <= 60);
        assert!(world.count_stone(StoneKind::Garnet) <= 40);
        assert!(world.count_stone(StoneKind::Ammolite) <= 20);
    }
}

#[test]
fn respawn_refills_up_to_the_target_only() {
    let mut world = World::generate(20, 20, 9);
    for tile in world.tiles_mut() {
        tile.food = false;
    }
    let jade_before = world.count_stone(StoneKind::Jade);
    let mut rng = SeededRng::new(9);
    world.respawn_tick(&mut rng);
    let food = world.count_food();
    assert!(food > 0 && food <= 200);
    assert_eq!(world.count_stone(StoneKind::Jade), jade_before);
}
