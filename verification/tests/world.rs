use zappy_server::world::{stone_density, SeededRng, StoneKind, Tile, World, FOOD_DENSITY_PERCENT};

#[test]
fn all_six_stone_names_match_subject() {
    assert_eq!(
        StoneKind::ALL.map(|k| k.as_str()),
        ["jade", "peridot", "amber", "amethyst", "garnet", "ammolite"]
    );
}

#[test]
fn wrap_x_leaves_right_enters_left() {
    let w = World::empty(10, 5);
    assert_eq!(w.wrap_x(10), 0); // past right edge
    assert_eq!(w.wrap_x(11), 1);
    assert_eq!(w.wrap_x(-1), 9); // past left edge
    assert_eq!(w.wrap_x(0), 0);
    assert_eq!(w.wrap_x(9), 9);
}

#[test]
fn wrap_y_is_toroidal() {
    let w = World::empty(3, 7);
    assert_eq!(w.wrap_y(7), 0);
    assert_eq!(w.wrap_y(-1), 6);
    assert_eq!(w.wrap_y(100), 2); // 100 % 7 = 2
}

#[test]
fn tile_rejects_second_food_and_fourth_stone_kind() {
    let mut t = Tile::default();
    assert!(t.try_add_food());
    assert!(!t.try_add_food());

    assert!(t.try_add_stone(StoneKind::Jade));
    assert!(t.try_add_stone(StoneKind::Peridot));
    assert!(t.try_add_stone(StoneKind::Amber));
    assert!(!t.try_add_stone(StoneKind::Amethyst));
    assert!(!t.try_add_stone(StoneKind::Jade)); // already present
    assert_eq!(t.stone_count(), 3);
}

#[test]
fn generation_places_food_and_all_six_stones() {
    let world = World::generate(20, 20, 42);
    assert!(world.assert_invariants());
    assert!(world.count_food() > 0, "food must exist");
    for kind in StoneKind::ALL {
        assert!(
            world.count_stone(kind) > 0,
            "stone {} must exist",
                kind.as_str()
        );
    }
}

#[test]
fn generation_obeys_per_tile_rules() {
    let world = World::generate(15, 15, 7);
    for tile in world.tiles() {
        assert!(tile.stone_count() <= 3);
        // Duplicate type impossible by bool array.
    }
}

#[test]
fn stones_are_not_all_on_one_tile() {
    let world = World::generate(12, 12, 99);
    let total = world.count_all_stones();
    assert!(total > 3, "expected a spread of stones, got {total}");
    let tiles_with_stones = world.tiles().iter().filter(|t| t.stone_count() > 0).count();
    assert!(
        tiles_with_stones > 1,
        "stones must not all sit on one square"
    );
}

#[test]
fn same_seed_is_deterministic() {
    let a = World::generate(8, 8, 12345);
    let b = World::generate(8, 8, 12345);
    assert_eq!(a.tiles(), b.tiles());
    assert_eq!(a.summary_line(), b.summary_line());
}

#[test]
fn different_seeds_usually_differ() {
    let a = World::generate(10, 10, 1);
    let b = World::generate(10, 10, 2);
    assert_ne!(a.tiles(), b.tiles());
}

#[test]
fn densities_are_near_targets_on_large_map() {
    let world = World::generate(40, 40, 2026);
    let n = world.tile_count() as f64;
    let food_density = FOOD_DENSITY_PERCENT as f64 / 100.0;
    let food_ratio = world.count_food() as f64 / n;
    assert!(
        (food_ratio - food_density).abs() < 0.05,
        "food density {food_ratio} far from {food_density}"
    );
    for kind in StoneKind::ALL {
        let target = stone_density(kind.index()) as f64 / 100.0;
        let ratio = world.count_stone(kind) as f64 / n;
        // Cap from max-3-kinds can clip denser stones slightly on busy maps.
        assert!(
            ratio <= target + 0.02,
            "{} density {ratio} above target {target}",
            kind.as_str()
        );
        assert!(
            ratio >= target * 0.5,
            "{} density {ratio} far below target {target}",
            kind.as_str()
        );
    }
}

#[test]
fn respawn_tick_refills_after_clear() {
    let mut world = World::generate(10, 10, 5);
    // Strip all food.
    for tile in world.tiles_mut() {
        tile.food = false;
    }
    assert_eq!(world.count_food(), 0);
    let mut rng = SeededRng::new(5);
    world.respawn_tick(&mut rng);
    assert!(world.count_food() > 0, "respawn should place some food");
    assert!(world.assert_invariants());
}

#[test]
fn summary_line_lists_resources() {
    let world = World::generate(5, 5, 1);
    let s = world.summary_line();
    assert!(s.contains("food="));
    assert!(s.contains("jade="));
    assert!(s.contains("ammolite="));
}
