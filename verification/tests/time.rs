use std::time::Duration;

use zappy_server::time::{action_duration, time_unit_duration};

#[test]
fn default_t_advance_is_70ms() {
    // t=100, cost=7 → 7/100 s = 70 ms.
    assert_eq!(action_duration(100, 7), Duration::from_millis(70));
}

#[test]
fn t_equals_1_advance_is_7_seconds() {
    assert_eq!(action_duration(1, 7), Duration::from_secs(7));
}

#[test]
fn zero_cost_is_instant() {
    assert_eq!(action_duration(100, 0), Duration::ZERO);
}

#[test]
fn one_time_unit_at_t100() {
    assert_eq!(time_unit_duration(100), Duration::from_millis(10));
}
