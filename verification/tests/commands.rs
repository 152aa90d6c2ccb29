use std::time::Instant;

use zappy_server::commands::{parse_command, CmdQueue, Command, MAX_PENDING};
use zappy_server::time::action_duration;

#[test]
fn parses_subject_verbs() {
    assert_eq!(parse_command("advance"), Some(Command::Advance));
    assert_eq!(parse_command("right"), Some(Command::Right));
    assert_eq!(parse_command("left"), Some(Command::Left));
    assert_eq!(parse_command("see"), Some(Command::See));
    assert_eq!(parse_command("inventory"), Some(Command::Inventory));
    assert_eq!(parse_command("kick"), Some(Command::Kick));
    assert_eq!(parse_command("enchantment"), Some(Command::Enchantment));
    assert_eq!(parse_command("fork"), Some(Command::Fork));
    assert_eq!(parse_command("connect_nbr"), Some(Command::ConnectNbr));
    assert_eq!(
        parse_command("pick jade"),
        Some(Command::Pick("jade".into()))
    );
    assert_eq!(
        parse_command("drop food"),
        Some(Command::Drop("food".into()))
    );
    assert_eq!(
        parse_command("broadcast hello world"),
        Some(Command::Broadcast("hello world".into()))
    );
    assert_eq!(
        parse_command("broadcast"),
        Some(Command::Broadcast(String::new()))
    );
}

#[test]
fn unknown_or_malformed_are_errors() {
    assert!(parse_command("Advance").is_none()); // case-sensitive
    assert!(parse_command("noop").is_none());
    assert!(parse_command("pick").is_none());
    assert!(parse_command("pick a b").is_none());
    assert!(parse_command("advance now").is_none());
    assert!(parse_command("").is_none());
}

#[test]
fn delays_match_subject_table() {
    assert_eq!(Command::Advance.delay_tu(), 7);
    assert_eq!(Command::Inventory.delay_tu(), 1);
    assert_eq!(Command::Enchantment.delay_tu(), 300);
    assert_eq!(Command::Fork.delay_tu(), 48);
    assert_eq!(Command::ConnectNbr.delay_tu(), 0);
}

#[test]
fn queue_caps_at_ten() {
    let mut q = CmdQueue::new();
    let now = Instant::now();
    for _ in 0..MAX_PENDING {
        assert!(q.try_enqueue(Command::Advance, now, 100));
    }
    assert!(!q.try_enqueue(Command::Advance, now, 100));
    assert_eq!(q.pending_count(), MAX_PENDING);
}

#[test]
fn queue_completes_in_order_after_delays() {
    let mut q = CmdQueue::new();
    let t = 1000; // fast: 7/t = 7ms
    let start = Instant::now();
    assert!(q.try_enqueue(Command::ConnectNbr, start, t)); // 0 delay
    assert!(q.try_enqueue(Command::Inventory, start, t)); // 1/t

    // ConnectNbr finishes immediately.
    let done = q.poll_complete(start, t).expect("connect_nbr");
    assert_eq!(done, Command::ConnectNbr);

    // Inventory still running.
    assert!(q.poll_complete(start, t).is_none());
    let later = start + action_duration(t, 1);
    let done = q.poll_complete(later, t).expect("inventory");
    assert_eq!(done, Command::Inventory);
    assert_eq!(q.pending_count(), 0);
}
