use party_rooms::error::RoomError;
use party_rooms::registry::RoomRegistry;
use party_rooms::room::reference_words;

fn two_player_room() -> RoomRegistry {
    let mut reg = RoomRegistry::new();
    reg.join("r1", "Alice");
    reg.join("r1", "Bob");
    reg
}

#[test]
fn join_two_players_lists_them_in_order() {
    let mut reg = RoomRegistry::new();
    reg.join("r1", "Alice");
    let view = reg.join("r1", "Bob");
    assert_eq!(view.names, vec!["Alice".to_string(), "Bob".to_string()]);
    assert_eq!(view.round_num, 0);
    assert!(view.word_list.is_empty());
    assert!(view.assignments.pairs.is_empty());
}

#[test]
fn rejoin_keeps_single_entry() {
    let mut reg = two_player_room();
    let view = reg.join("r1", "Alice");
    assert_eq!(view.names, vec!["Alice".to_string(), "Bob".to_string()]);
}

#[test]
fn room_keys_are_case_sensitive() {
    let mut reg = two_player_room();
    let view = reg.join("R1", "Carl");
    assert_eq!(view.names, vec!["Carl".to_string()]);
    assert_eq!(reg.room_view("r1").unwrap().names.len(), 2);
}

#[test]
fn start_round_with_two_members() {
    let mut reg = two_player_room();
    let start = match reg.start_round("r1") {
        Ok(s) => s,
        Err(_) => panic!("round should start"),
    };
    assert_eq!(start.round, 1);
    let pairs = &start.assignments.pairs;
    assert_eq!(pairs.len(), 2);
    let mut players: Vec<String> = pairs.iter().map(|p| p.0.clone()).collect();
    players.sort();
    assert_eq!(players, vec!["Alice".to_string(), "Bob".to_string()]);
    assert_ne!(pairs[0].1, pairs[1].1);
    let pool = reference_words();
    assert!(pool.contains(&pairs[0].1));
    assert!(pool.contains(&pairs[1].1));
    let view = reg.room_view("r1").unwrap();
    assert_eq!(view.word_list, pool);
    assert_eq!(view.round_num, 1);
}

#[test]
fn kick_after_round_keeps_only_remaining_pair() {
    let mut reg = two_player_room();
    let start = match reg.start_round("r1") {
        Ok(s) => s,
        Err(_) => panic!("round should start"),
    };
    let alice_pair = start
        .assignments
        .pairs
        .iter()
        .find(|p| p.0 == "Alice")
        .cloned()
        .unwrap();
    let names = match reg.kick("r1", "Bob") {
        Ok(n) => n,
        Err(_) => panic!("Bob is a member"),
    };
    assert_eq!(names, vec!["Alice".to_string()]);
    let view = reg.room_view("r1").unwrap();
    assert_eq!(view.names, vec!["Alice".to_string()]);
    assert_eq!(view.assignments.pairs, vec![alice_pair]);
}

#[test]
fn start_round_unknown_room_is_not_found() {
    let mut reg = two_player_room();
    match reg.start_round("unknown-room") {
        Err(RoomError::RoomNotFound(k)) => assert_eq!(k, "unknown-room"),
        _ => panic!("expected RoomNotFound"),
    }
    assert!(reg.room_view("unknown-room").is_none());
}

#[test]
fn kick_unknown_room_is_not_found() {
    let mut reg = RoomRegistry::new();
    match reg.kick("nowhere", "Alice") {
        Err(RoomError::RoomNotFound(k)) => assert_eq!(k, "nowhere"),
        _ => panic!("expected RoomNotFound"),
    }
}

#[test]
fn kick_non_member_is_player_not_found() {
    let mut reg = two_player_room();
    match reg.kick("r1", "Zed") {
        Err(RoomError::PlayerNotFound(n)) => assert_eq!(n, "Zed"),
        _ => panic!("expected PlayerNotFound"),
    }
    assert_eq!(reg.room_view("r1").unwrap().names.len(), 2);
}

#[test]
fn kicked_name_leaves_members() {
    let mut reg = two_player_room();
    reg.join("r1", "Carl");
    let names = match reg.kick("r1", "Alice") {
        Ok(n) => n,
        Err(_) => panic!("Alice is a member"),
    };
    assert_eq!(names, vec!["Bob".to_string(), "Carl".to_string()]);
}

#[test]
fn start_round_in_empty_room_deals_nothing() {
    let mut reg = RoomRegistry::new();
    let _rx = reg.subscribe("quiet").rx;
    let start = match reg.start_round("quiet") {
        Ok(s) => s,
        Err(_) => panic!("room exists"),
    };
    assert_eq!(start.round, 1);
    assert!(start.assignments.pairs.is_empty());
}

#[test]
fn rounds_count_up_by_one() {
    let mut reg = two_player_room();
    for expected in 1..=3u64 {
        match reg.start_round("r1") {
            Ok(s) => assert_eq!(s.round, expected),
            Err(_) => panic!("round should start"),
        }
    }
    reg.join("r1", "Carl");
    assert_eq!(reg.room_view("r1").unwrap().round_num, 3);
}

#[test]
fn single_member_round_uses_one_word() {
    let mut reg = RoomRegistry::new();
    reg.join("solo", "Alice");
    let start = match reg.start_round("solo") {
        Ok(s) => s,
        Err(_) => panic!("round should start"),
    };
    assert_eq!(start.assignments.pairs.len(), 1);
    assert_eq!(start.assignments.pairs[0].0, "Alice");
}

#[test]
fn odd_round_splits_larger_half_first() {
    let mut reg = RoomRegistry::new();
    for name in ["A", "B", "C", "D", "E"] {
        reg.join("five", name);
    }
    let start = match reg.start_round("five") {
        Ok(s) => s,
        Err(_) => panic!("round should start"),
    };
    let pairs = &start.assignments.pairs;
    assert_eq!(pairs.len(), 5);
    let first = pairs[0].1.clone();
    let second = pairs[4].1.clone();
    assert_ne!(first, second);
    assert_eq!(pairs.iter().filter(|p| p.1 == first).count(), 3);
    assert_eq!(pairs.iter().filter(|p| p.1 == second).count(), 2);
    let mut players: Vec<String> = pairs.iter().map(|p| p.0.clone()).collect();
    players.sort();
    assert_eq!(players, vec!["A", "B", "C", "D", "E"]);
}

#[test]
fn subscriber_receives_join_event() {
    let mut reg = two_player_room();
    let mut rx = reg.subscribe("r1").rx;
    reg.join("r1", "Carl");
    assert_eq!(rx.try_recv().unwrap(), "JOIN, Carl, r1");
}

#[test]
fn subscriber_sees_events_in_operation_order() {
    let mut reg = RoomRegistry::new();
    let mut rx = reg.subscribe("r1").rx;
    reg.join("r1", "Alice");
    reg.join("r1", "Bob");
    let _ = reg.start_round("r1");
    let _ = reg.kick("r1", "Bob");
    let _ = reg.kick("r1", "Bob");
    reg.join("r1", "Alice");
    assert_eq!(rx.try_recv().unwrap(), "JOIN, Alice, r1");
    assert_eq!(rx.try_recv().unwrap(), "JOIN, Bob, r1");
    assert_eq!(rx.try_recv().unwrap(), "ROUND_START, r1");
    assert_eq!(rx.try_recv().unwrap(), "KICK, Bob, r1");
    assert_eq!(rx.try_recv().unwrap(), "JOIN, Alice, r1");
    assert!(rx.try_recv().is_err());
}

#[test]
fn subscriber_gets_no_history() {
    let mut reg = two_player_room();
    let mut rx = reg.subscribe("r1").rx;
    assert!(rx.try_recv().is_err());
}

#[test]
fn events_of_other_rooms_stay_apart() {
    let mut reg = RoomRegistry::new();
    let mut rx = reg.subscribe("a").rx;
    reg.join("b", "Bob");
    reg.join("a", "Ann");
    assert_eq!(rx.try_recv().unwrap(), "JOIN, Ann, a");
    assert!(rx.try_recv().is_err());
}

#[test]
fn two_subscribers_each_see_all_events() {
    let mut reg = RoomRegistry::new();
    let mut first = reg.subscribe("r1").rx;
    let mut second = reg.subscribe("r1").rx;
    reg.join("r1", "Alice");
    let _ = reg.start_round("r1");
    assert_eq!(first.try_recv().unwrap(), "JOIN, Alice, r1");
    assert_eq!(first.try_recv().unwrap(), "ROUND_START, r1");
    assert_eq!(second.try_recv().unwrap(), "JOIN, Alice, r1");
    assert_eq!(second.try_recv().unwrap(), "ROUND_START, r1");
    assert!(first.try_recv().is_err());
    assert!(second.try_recv().is_err());
}
