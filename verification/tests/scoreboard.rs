use redis_game::message::{GameMessage, KeyValue};
use redis_game::scoreboard::{encode_clicks, Scoreboard, CLICK};

fn entry_of(key: &str, value: i64) -> KeyValue {
    KeyValue { key: key.to_string(), value }
}

fn listed(board: &Scoreboard) -> Vec<(String, i64)> {
    let mut out = Vec::new();
    let mut i = 0;
    while let Some(pair) = board.entry(i) {
        out.push(pair);
        i += 1;
    }
    assert_eq!(out.len(), board.len());
    out
}

fn named(pairs: &[(&str, i64)]) -> Vec<(String, i64)> {
    pairs.iter().map(|(k, v)| (k.to_string(), *v)).collect()
}

fn full(pairs: &[(&str, i64)]) -> GameMessage {
    GameMessage {
        updates: Some(pairs.iter().map(|(k, v)| entry_of(k, *v)).collect()),
        clicks: None,
        clear: Some(true),
    }
}

fn partial(pairs: &[(&str, i64)], clear: Option<bool>) -> GameMessage {
    GameMessage {
        updates: Some(pairs.iter().map(|(k, v)| entry_of(k, *v)).collect()),
        clicks: None,
        clear,
    }
}

#[test]
fn a_new_scoreboard_is_empty() {
    let board = Scoreboard::new();
    assert_eq!(board.len(), 0);
    assert_eq!(board.entry(0), None);
    assert_eq!(board.score("Alice"), None);
}

#[test]
fn a_cleared_snapshot_rebuilds_in_key_order() {
    let mut board = Scoreboard::new();
    board.apply(full(&[
        ("Carol", 3),
        ("alice", 9),
        ("Alice", 1),
        ("Bob", -2),
        ("Zoë", 4),
        ("Zoe", 5),
    ]));
    assert_eq!(
        listed(&board),
        named(&[("Alice", 1), ("Bob", -2), ("Carol", 3), ("Zoe", 5), ("Zoë", 4), ("alice", 9)])
    );
    assert_eq!(board.score("Bob"), Some(-2));
    assert_eq!(board.score("Dave"), None);
}

#[test]
fn a_cleared_snapshot_discards_what_was_there() {
    let mut board = Scoreboard::new();
    board.apply(full(&[("Alice", 1), ("Bob", 2)]));
    board.apply(full(&[("Carol", 3)]));
    assert_eq!(listed(&board), named(&[("Carol", 3)]));
    board.apply(full(&[]));
    assert_eq!(listed(&board), named(&[]));
    board.apply(full(&[("Bob", 2)]));
    board.apply(GameMessage { updates: None, clicks: None, clear: Some(true) });
    assert_eq!(board.len(), 0);
}

#[test]
fn the_last_value_of_a_repeated_key_wins() {
    let mut board = Scoreboard::new();
    board.apply(full(&[("Bob", 1), ("Alice", 5), ("Bob", 2), ("Alice", 6), ("Bob", 3)]));
    assert_eq!(listed(&board), named(&[("Alice", 6), ("Bob", 3)]));
    board.apply(partial(&[("Bob", 7), ("Bob", 8)], None));
    assert_eq!(listed(&board), named(&[("Alice", 6), ("Bob", 8)]));
}

#[test]
fn a_patch_sets_known_keys_and_keeps_the_places() {
    let mut board = Scoreboard::new();
    board.apply(full(&[("Alice", 1), ("Bob", 2), ("Carol", 3)]));
    board.apply(partial(&[("Carol", 30), ("Dave", 40), ("Alice", 10)], Some(false)));
    assert_eq!(listed(&board), named(&[("Alice", 10), ("Bob", 2), ("Carol", 30)]));
    board.apply(partial(&[("Bob", -1)], None));
    assert_eq!(listed(&board), named(&[("Alice", 10), ("Bob", -1), ("Carol", 30)]));
    board.apply(GameMessage::default());
    assert_eq!(listed(&board), named(&[("Alice", 10), ("Bob", -1), ("Carol", 30)]));
    board.patch(&vec![entry_of("Alice", 0)]);
    assert_eq!(board.score("Alice"), Some(0));
}

#[test]
fn frames_are_decoded_and_applied() {
    let mut board = Scoreboard::new();
    assert!(board.receive(&full(&[("Bob", 2), ("Alice", 1)]).encode().unwrap()));
    assert_eq!(listed(&board), named(&[("Alice", 1), ("Bob", 2)]));
    assert!(!board.receive(&[1, 2, 3]));
    assert!(!board.receive(&[]));
    assert_eq!(listed(&board), named(&[("Alice", 1), ("Bob", 2)]));
    assert!(board.receive(&partial(&[("Bob", 5)], Some(false)).encode().unwrap()));
    assert_eq!(listed(&board), named(&[("Alice", 1), ("Bob", 5)]));
}

#[test]
fn a_click_is_worth_ten_thousand() {
    assert_eq!(CLICK, 10_000);
}

#[test]
fn clicks_move_the_score_at_once() {
    let mut board = Scoreboard::new();
    board.apply(full(&[("Alice", 0), ("Bob", 5)]));
    // her own name goes up
    assert_eq!(board.click(0, "Alice", false), Some(entry_of("Alice", 10_000)));
    // another name goes down
    assert_eq!(board.click(1, "Alice", false), Some(entry_of("Bob", -10_000)));
    // unless the click helps
    assert_eq!(board.click(1, "Alice", true), Some(entry_of("Bob", 10_000)));
    assert_eq!(board.click(0, "Alice", true), Some(entry_of("Alice", 10_000)));
    assert_eq!(listed(&board), named(&[("Alice", 20_000), ("Bob", 5)]));
    // beyond the last player there is nothing
    assert_eq!(board.click(2, "Alice", false), None);
    assert_eq!(listed(&board), named(&[("Alice", 20_000), ("Bob", 5)]));
}

#[test]
fn a_predicted_score_wraps_around() {
    let mut board = Scoreboard::new();
    board.apply(full(&[("Alice", i64::MAX), ("Bob", i64::MIN)]));
    board.click(0, "Alice", false);
    board.click(1, "Alice", false);
    assert_eq!(
        listed(&board),
        named(&[("Alice", i64::MIN + 9_999), ("Bob", i64::MAX - 9_999)])
    );
}

#[test]
fn a_click_batch_is_a_message_with_clicks_alone() {
    let clicks = vec![entry_of("Alice", 10_000), entry_of("Bob", -10_000)];
    let bytes = encode_clicks(clicks.clone()).unwrap();
    assert_eq!(
        GameMessage::decode(&bytes),
        Ok(GameMessage { updates: None, clicks: Some(clicks), clear: None })
    );
    assert_eq!(encode_clicks(vec![]).unwrap(), vec![6, 0, 0, 0, 2, 0, 0, 0, 0, 0]);
}

#[test]
fn entries_are_listed_in_board_order() {
    let mut board = Scoreboard::new();
    board.apply(full(&[("Bob", 2), ("Alice", 1)]));
    assert_eq!(board.entries(), named(&[("Alice", 1), ("Bob", 2)]));
    assert_eq!(Scoreboard::new().entries(), named(&[]));
}

#[test]
fn the_ranking_goes_from_the_highest_score_down() {
    let mut board = Scoreboard::new();
    board.apply(full(&[("Alice", 5), ("Bob", -7), ("Carol", 5), ("Dave", 30), ("Eve", 5)]));
    assert_eq!(
        board.ranking(),
        named(&[("Dave", 30), ("Eve", 5), ("Carol", 5), ("Alice", 5), ("Bob", -7)])
    );
    assert_eq!(Scoreboard::new().ranking(), named(&[]));
    // the board itself keeps its order
    assert_eq!(
        listed(&board),
        named(&[("Alice", 5), ("Bob", -7), ("Carol", 5), ("Dave", 30), ("Eve", 5)])
    );
}
