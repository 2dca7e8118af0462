use party_rooms::assignment::{distinct_words, Assignments};
use party_rooms::error::RoomError;
use party_rooms::events::{join_event, kick_event, round_event};

fn strings(v: &[&str]) -> Vec<String> {
    v.iter().map(|s| s.to_string()).collect()
}

fn pair(p: &str, w: &str) -> (String, String) {
    (p.to_string(), w.to_string())
}

#[test]
fn drawn_split_follows_permutation_and_ratio() {
    let pool = strings(&["x", "y", "z"]);
    let players = strings(&["A", "B", "C"]);
    let mut a = Assignments::new();
    a.assign_drawn(&pool, &players, 2, 0, &vec![1, 2, 0]);
    assert_eq!(a.pairs, vec![pair("B", "z"), pair("C", "z"), pair("A", "x")]);
}

#[test]
fn drawn_split_of_four_is_even() {
    let pool = strings(&["x", "y"]);
    let players = strings(&["A", "B", "C", "D"]);
    let mut a = Assignments::new();
    a.assign_drawn(&pool, &players, 0, 1, &vec![3, 2, 1, 0]);
    assert_eq!(
        a.pairs,
        vec![pair("D", "x"), pair("C", "x"), pair("B", "y"), pair("A", "y")]
    );
}

#[test]
fn drawn_split_of_one_uses_first_word() {
    let pool = strings(&["x", "y"]);
    let players = strings(&["A"]);
    let mut a = Assignments::new();
    a.assign_drawn(&pool, &players, 1, 0, &vec![0]);
    assert_eq!(a.pairs, vec![pair("A", "y")]);
}

#[test]
fn random_words_need_two_distinct_words() {
    let mut a = Assignments::new();
    match a.assign_random_words(&strings(&["same", "same"]), &strings(&["A", "B"])) {
        Err(RoomError::InsufficientPool) => {}
        _ => panic!("expected InsufficientPool"),
    }
    assert!(a.pairs.is_empty());
    match a.assign_random_words(&strings(&["one"]), &strings(&[])) {
        Err(RoomError::InsufficientPool) => {}
        _ => panic!("expected InsufficientPool"),
    }
}

#[test]
fn random_words_with_no_players_give_no_pairs() {
    let mut a = Assignments::new();
    assert!(a.assign_random_words(&strings(&["p", "q"]), &strings(&[])).is_ok());
    assert!(a.pairs.is_empty());
}

#[test]
fn random_words_with_duplicates_still_pick_two_distinct() {
    for _ in 0..20 {
        let mut a = Assignments::new();
        let players = strings(&["A", "B"]);
        assert!(a
            .assign_random_words(&strings(&["p", "p", "p", "q"]), &players)
            .is_ok());
        assert_eq!(a.pairs.len(), 2);
        assert_ne!(a.pairs[0].1, a.pairs[1].1);
        assert_ne!(a.pairs[0].0, a.pairs[1].0);
    }
}

#[test]
fn distinct_words_keep_first_occurrences() {
    let d = distinct_words(&strings(&["b", "a", "b", "c", "a"]));
    assert_eq!(d, strings(&["b", "a", "c"]));
    assert!(distinct_words(&strings(&[])).is_empty());
}

#[test]
fn remove_player_drops_only_their_pairs() {
    let mut a = Assignments {
        pairs: vec![pair("A", "x"), pair("B", "y"), pair("C", "x")],
    };
    a.remove_player("B");
    assert_eq!(a.pairs, vec![pair("A", "x"), pair("C", "x")]);
    a.remove_player("nobody");
    assert_eq!(a.pairs.len(), 2);
}

#[test]
fn snapshot_copies_pairs() {
    let a = Assignments {
        pairs: vec![pair("A", "x")],
    };
    let b = a.snapshot();
    assert_eq!(b.pairs, a.pairs);
}

#[test]
fn event_texts() {
    assert_eq!(join_event("Carl", "r1"), "JOIN, Carl, r1");
    assert_eq!(kick_event("Bob", "r1"), "KICK, Bob, r1");
    assert_eq!(round_event("r1"), "ROUND_START, r1");
}
