use zappy_server::eggs::{EggSet, SHIP_ARRIVAL_TU};

#[test]
fn ship_arrives_after_600_tu() {
    let mut eggs = EggSet::new();
    eggs.call_ship("alpha", 2, 3, 10);
    assert_eq!(eggs.hatch_due(609).len(), 0);
    let hatched = eggs.hatch_due(610);
    assert_eq!(hatched.len(), 1);
    assert_eq!(hatched[0].team, "alpha");
    assert_eq!((hatched[0].x, hatched[0].y), (2, 3));
    assert_eq!(eggs.take_spawn("alpha"), Some((2, 3)));
    assert_eq!(eggs.take_spawn("alpha"), None);
}

#[test]
fn take_spawn_is_team_fifo() {
    let mut eggs = EggSet::new();
    eggs.call_ship("a", 1, 1, 0);
    eggs.call_ship("b", 5, 5, 0);
    eggs.call_ship("a", 2, 2, 0);
    let _ = eggs.hatch_due(600);
    assert_eq!(eggs.take_spawn("a"), Some((1, 1)));
    assert_eq!(eggs.take_spawn("a"), Some((2, 2)));
    assert_eq!(eggs.take_spawn("b"), Some((5, 5)));
}

#[test]
fn ship_arrival_constant_matches_subject() {
    assert_eq!(SHIP_ARRIVAL_TU, 600);
}
