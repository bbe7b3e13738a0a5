use std::collections::BTreeMap;

use redis_game::error::Error;
use redis_game::message::{GameMessage, KeyValue};
use redis_game::session::{
    Action, Channel, Event, HandshakeError, Inbound, Phase, Push, PushValue, Session,
};

fn text(s: &str) -> String {
    s.to_string()
}

fn pair(key: &str, value: i64) -> KeyValue {
    KeyValue { key: key.to_string(), value }
}

fn notification(channel: &str, name: &str) -> Push {
    Push {
        is_message: true,
        data: vec![
            PushValue::Bulk(channel.as_bytes().to_vec()),
            PushValue::Bulk(name.as_bytes().to_vec()),
        ],
    }
}

fn active(name: &str) -> Session {
    let mut session = Session::new();
    session.step(Event::Inbound(Inbound::Text(text(name))));
    assert_eq!(session.phase(), Phase::Active);
    session
}

fn watched(session: &Session) -> Vec<String> {
    session.members().keys().clone()
}

fn sent(actions: &[Action]) -> GameMessage {
    assert_eq!(actions.len(), 1);
    match &actions[0] {
        Action::Send(bytes) => GameMessage::decode(bytes).unwrap(),
        other => panic!("expected a frame, got {:?}", other),
    }
}

/// A store and a directory in memory, with the sessions that are connected.
struct World {
    store: BTreeMap<String, i64>,
    published: Vec<(Channel, String)>,
    sessions: Vec<(Session, bool, Vec<GameMessage>)>,
}

fn world() -> World {
    World { store: BTreeMap::new(), published: Vec::new(), sessions: Vec::new() }
}

/// Hands an event to the session at `who` and performs what it asks for.
fn deliver(world: &mut World, who: usize, event: Event) {
    let mut queue = vec![(who, event)];
    while !queue.is_empty() {
        let (at, event) = queue.remove(0);
        let actions = world.sessions[at].0.step(event);
        for action in actions {
            match action {
                Action::Initialize(key) => {
                    world.store.insert(key, 0);
                }
                Action::EnumerateKeys => {
                    let keys = world.store.keys().cloned().collect();
                    queue.push((at, Event::Keys(keys)));
                }
                Action::Subscribe => world.sessions[at].1 = true,
                Action::Publish(channel, name) => {
                    for (i, entry) in world.sessions.iter().enumerate() {
                        if entry.1 && entry.0.phase() == Phase::Active || i == at && entry.1 {
                            queue.push((i, Event::Push(notification(channel.name(), &name))));
                        }
                    }
                    world.published.push((channel, name));
                }
                Action::Increment(key, delta) => {
                    *world.store.entry(key).or_insert(0) += delta;
                }
                Action::BatchRead(keys) => {
                    let values = keys.iter().map(|k| world.store.get(k).copied()).collect();
                    queue.push((at, Event::Scores(values)));
                }
                Action::Send(bytes) => {
                    let message = GameMessage::decode(&bytes).unwrap();
                    world.sessions[at].2.push(message);
                }
                Action::Delete(key) => {
                    world.store.remove(&key);
                }
                Action::SendError(_) | Action::Reject(_) => {}
            }
        }
    }
}

fn connect(world: &mut World, name: &str) -> usize {
    world.sessions.push((Session::new(), false, Vec::new()));
    let who = world.sessions.len() - 1;
    deliver(world, who, Event::Inbound(Inbound::Text(text(name))));
    who
}

fn last_snapshot(world: &World, who: usize) -> GameMessage {
    world.sessions[who].2.last().unwrap().clone()
}

#[test]
fn a_new_session_awaits_the_name() {
    let session = Session::new();
    assert_eq!(session.phase(), Phase::AwaitingName);
    assert!(session.is_dirty());
    assert!(session.members().is_empty());
    assert_eq!(session.name(), "");
}

#[test]
fn a_player_registers_enumerates_subscribes_and_announces() {
    let mut session = Session::new();
    let actions = session.step(Event::Inbound(Inbound::Text(text("Alice"))));
    assert_eq!(
        actions,
        vec![
            Action::Initialize(text("Alice")),
            Action::EnumerateKeys,
            Action::Subscribe,
            Action::Publish(Channel::Joins, text("Alice")),
        ]
    );
    assert_eq!(session.phase(), Phase::Active);
    assert_eq!(session.name(), "Alice");
    assert!(session.is_dirty());
}

#[test]
fn the_spectator_only_enumerates_and_subscribes() {
    let mut session = Session::new();
    let actions = session.step(Event::Inbound(Inbound::Text(text("Bradshaw"))));
    assert_eq!(actions, vec![Action::EnumerateKeys, Action::Subscribe]);
    assert_eq!(session.phase(), Phase::Active);
    // on the way out it leaves no trace either
    assert_eq!(session.step(Event::Inbound(Inbound::Close)), vec![]);
    assert_eq!(session.phase(), Phase::Closed);
}

#[test]
fn the_spectator_fails_without_touching_the_store() {
    let mut session = active("Bradshaw");
    let actions = session.step(Event::StoreFailed(text("Failed to mget keys")));
    assert_eq!(actions, vec![Action::SendError(Error(500, text("Failed to mget keys")))]);
    assert_eq!(session.phase(), Phase::Closed);
}

#[test]
fn a_first_frame_that_is_no_text_refuses_the_connection() {
    let cases = vec![
        (Inbound::Binary(vec![1, 2, 3]), HandshakeError::NotText),
        (Inbound::Control, HandshakeError::NotText),
        (Inbound::Close, HandshakeError::NotText),
        (Inbound::Failed, HandshakeError::ReceiveFailed),
        (Inbound::Ended, HandshakeError::NoName),
    ];
    for (frame, why) in cases {
        let mut session = Session::new();
        assert_eq!(session.step(Event::Inbound(frame)), vec![Action::Reject(why)]);
        assert_eq!(session.phase(), Phase::Closed);
        assert!(session.members().is_empty());
        // a session that never started does nothing afterwards
        assert_eq!(session.step(Event::Tick), vec![]);
        assert_eq!(session.step(Event::Inbound(Inbound::Text(text("Alice")))), vec![]);
        assert_eq!(session.phase(), Phase::Closed);
    }
}

#[test]
fn a_store_that_cannot_be_reached_refuses_the_connection() {
    let mut session = Session::new();
    let actions = session.step(Event::StoreFailed(text("connection refused")));
    assert_eq!(actions, vec![Action::Reject(HandshakeError::StoreUnavailable)]);
    assert_eq!(session.phase(), Phase::Closed);
}

#[test]
fn handshake_failures_have_their_status_and_report() {
    assert_eq!(HandshakeError::NoName.status_code(), 400);
    assert_eq!(HandshakeError::ReceiveFailed.status_code(), 400);
    assert_eq!(HandshakeError::NotText.status_code(), 400);
    assert_eq!(HandshakeError::StoreUnavailable.status_code(), 500);
    assert_eq!(
        HandshakeError::NoName.to_error(),
        Error(400, text("Did not receive any name message"))
    );
    assert_eq!(
        HandshakeError::ReceiveFailed.to_error(),
        Error(400, text("Failed to receive name message"))
    );
    assert_eq!(
        HandshakeError::NotText.to_error(),
        Error(400, text("Name message was not a text message"))
    );
    assert_eq!(
        HandshakeError::StoreUnavailable.to_error(),
        Error(500, text("Failed to get connection to Redis"))
    );
}

#[test]
fn events_before_the_name_are_ignored() {
    let mut session = Session::new();
    assert_eq!(session.step(Event::Tick), vec![]);
    assert_eq!(session.step(Event::Keys(vec![text("Bob")])), vec![]);
    assert_eq!(session.step(Event::Scores(vec![Some(1)])), vec![]);
    assert_eq!(session.step(Event::Push(notification("joins", "Bob"))), vec![]);
    assert_eq!(session.phase(), Phase::AwaitingName);
    assert!(session.members().is_empty());
}

#[test]
fn enumerated_keys_seed_the_membership_without_the_own_name() {
    let mut session = active("Alice");
    let actions =
        session.step(Event::Keys(vec![text("Bob"), text("Alice"), text("Carol"), text("Bob")]));
    assert_eq!(actions, vec![]);
    assert_eq!(watched(&session), vec![text("Bob"), text("Carol")]);
}

#[test]
fn channel_names_are_joins_and_leaves() {
    assert_eq!(Channel::Joins.name(), "joins");
    assert_eq!(Channel::Leaves.name(), "leaves");
}

#[test]
fn joins_and_leaves_keep_the_membership_current() {
    let mut session = active("Alice");
    session.step(Event::Scores(vec![]));
    assert!(!session.is_dirty());

    assert_eq!(session.step(Event::Push(notification("joins", "Bob"))), vec![]);
    assert_eq!(watched(&session), vec![text("Bob")]);
    assert!(session.is_dirty());
    session.step(Event::Scores(vec![Some(1)]));
    assert!(!session.is_dirty());

    // a duplicate join changes nothing
    session.step(Event::Push(notification("joins", "Bob")));
    assert_eq!(watched(&session), vec![text("Bob")]);
    assert!(!session.is_dirty());

    // a leave of an absent key changes nothing
    session.step(Event::Push(notification("leaves", "Carol")));
    assert_eq!(watched(&session), vec![text("Bob")]);
    assert!(!session.is_dirty());

    session.step(Event::Push(notification("joins", "Carol")));
    session.step(Event::Push(notification("joins", "Dave")));
    session.step(Event::Push(notification("leaves", "Bob")));
    assert_eq!(watched(&session), vec![text("Dave"), text("Carol")]);
    assert!(session.is_dirty());
}

#[test]
fn a_join_of_the_spectator_is_not_watched() {
    let mut session = active("Alice");
    session.step(Event::Scores(vec![]));
    session.step(Event::Push(notification("joins", "Bradshaw")));
    assert!(session.members().is_empty());
    assert!(!session.is_dirty());
    session.step(Event::Keys(vec![text("Bradshaw"), text("Bob")]));
    assert_eq!(watched(&session), vec![text("Bob")]);
}

#[test]
fn notifications_that_are_none_are_ignored() {
    let mut session = active("Alice");
    session.step(Event::Scores(vec![]));
    let ignored = vec![
        notification("scores", "Bob"),
        notification("Joins", "Bob"),
        Push { is_message: false, data: notification("joins", "Bob").data },
        Push { is_message: true, data: vec![PushValue::Bulk(b"Bob".to_vec())] },
        Push { is_message: true, data: vec![] },
        Push {
            is_message: true,
            data: vec![PushValue::Other, PushValue::Bulk(b"Bob".to_vec())],
        },
        Push {
            is_message: true,
            data: vec![PushValue::Bulk(b"joins".to_vec()), PushValue::Other],
        },
        Push {
            is_message: true,
            data: vec![
                PushValue::Bulk(b"joins".to_vec()),
                PushValue::Bulk(b"Bob".to_vec()),
                PushValue::Bulk(b"extra".to_vec()),
            ],
        },
        // a channel that is not text names no channel, whatever the name is
        Push {
            is_message: true,
            data: vec![PushValue::Bulk(vec![0xff]), PushValue::Bulk(vec![0xff])],
        },
    ];
    for push in ignored {
        assert_eq!(session.step(Event::Push(push)), vec![]);
        assert_eq!(session.phase(), Phase::Active);
        assert!(session.members().is_empty());
        assert!(!session.is_dirty());
    }
}

#[test]
fn only_the_last_two_values_of_a_notification_count() {
    let mut session = active("Alice");
    let push = Push {
        is_message: true,
        data: vec![
            PushValue::Other,
            PushValue::Bulk(b"leaves".to_vec()),
            PushValue::Bulk(b"joins".to_vec()),
            PushValue::Bulk(b"Bob".to_vec()),
        ],
    };
    session.step(Event::Push(push));
    assert_eq!(watched(&session), vec![text("Bob")]);
}

#[test]
fn a_name_that_is_not_text_ends_the_session() {
    for channel in ["joins", "leaves"] {
        let mut session = active("Alice");
        let push = Push {
            is_message: true,
            data: vec![PushValue::Bulk(channel.as_bytes().to_vec()), PushValue::Bulk(vec![0xc0])],
        };
        let actions = session.step(Event::Push(push));
        assert_eq!(
            actions,
            vec![
                Action::SendError(Error(400, text("Join name was not valid UTF-8"))),
                Action::Delete(text("Alice")),
                Action::Publish(Channel::Leaves, text("Alice")),
            ]
        );
        assert_eq!(session.phase(), Phase::Closed);
    }
}

#[test]
fn a_tick_reads_the_watched_keys() {
    let mut session = active("Alice");
    session.step(Event::Keys(vec![text("Bob"), text("Carol")]));
    let actions = session.step(Event::Tick);
    assert_eq!(actions, vec![Action::BatchRead(vec![text("Bob"), text("Carol")])]);
    assert!(session.is_dirty());
}

#[test]
fn a_tick_with_nothing_to_watch_sends_the_empty_snapshot() {
    let mut session = active("Alice");
    let first = sent(&session.step(Event::Tick));
    assert_eq!(first, GameMessage { updates: Some(vec![]), clicks: None, clear: Some(true) });
    let second = sent(&session.step(Event::Tick));
    assert_eq!(second, GameMessage { updates: Some(vec![]), clicks: None, clear: Some(false) });
}

#[test]
fn a_miss_reads_zero() {
    let mut session = active("Alice");
    session.step(Event::Keys(vec![text("Bob"), text("Carol"), text("Dave")]));
    let message = sent(&session.step(Event::Scores(vec![Some(5), None])));
    assert_eq!(
        message,
        GameMessage {
            updates: Some(vec![pair("Bob", 5), pair("Carol", 0), pair("Dave", 0)]),
            clicks: None,
            clear: Some(true),
        }
    );
    assert_eq!(session.phase(), Phase::Active);
}

#[test]
fn values_beyond_the_watched_keys_are_left_out() {
    let mut session = active("Alice");
    session.step(Event::Keys(vec![text("Bob")]));
    let message = sent(&session.step(Event::Scores(vec![Some(-3), Some(9), None])));
    assert_eq!(message.updates, Some(vec![pair("Bob", -3)]));
}

#[test]
fn clear_is_sent_once_for_each_change() {
    let mut session = active("Alice");
    session.step(Event::Push(notification("joins", "Alice")));
    let flags = |session: &mut Session| sent(&session.step(Event::Scores(vec![Some(0)]))).clear;
    assert_eq!(flags(&mut session), Some(true));
    assert_eq!(flags(&mut session), Some(false));
    assert_eq!(flags(&mut session), Some(false));
    session.step(Event::Push(notification("joins", "Bob")));
    session.step(Event::Tick);
    session.step(Event::Inbound(Inbound::Control));
    assert_eq!(flags(&mut session), Some(true));
    assert_eq!(flags(&mut session), Some(false));
    session.step(Event::Push(notification("leaves", "Bob")));
    session.step(Event::Push(notification("joins", "Bob")));
    assert_eq!(flags(&mut session), Some(true));
    assert_eq!(flags(&mut session), Some(false));
    session.step(Event::Push(notification("joins", "Bob")));
    session.step(Event::Push(notification("leaves", "Nobody")));
    assert_eq!(flags(&mut session), Some(false));
}

#[test]
fn a_click_batch_becomes_increments_in_order() {
    let mut session = active("Bob");
    let batch = GameMessage {
        updates: None,
        clicks: Some(vec![pair("Alice", -10_000), pair("Bob", 10_000), pair("Alice", -10_000)]),
        clear: None,
    };
    let actions = session.step(Event::Inbound(Inbound::Binary(batch.encode().unwrap())));
    assert_eq!(
        actions,
        vec![
            Action::Increment(text("Alice"), -10_000),
            Action::Increment(text("Bob"), 10_000),
            Action::Increment(text("Alice"), -10_000),
        ]
    );
    assert_eq!(session.phase(), Phase::Active);
}

#[test]
fn frames_that_are_no_click_batch_are_dropped() {
    let mut session = active("Bob");
    let no_clicks =
        GameMessage { updates: Some(vec![pair("Bob", 1)]), clicks: None, clear: Some(true) };
    let frames = vec![
        Inbound::Binary(vec![]),
        Inbound::Binary(vec![1, 2, 3]),
        Inbound::Binary(vec![200, 0, 0, 0, 2]),
        Inbound::Binary(no_clicks.encode().unwrap()),
        Inbound::Text(text("hello")),
        Inbound::Control,
    ];
    for frame in frames {
        assert_eq!(session.step(Event::Inbound(frame)), vec![]);
        assert_eq!(session.phase(), Phase::Active);
    }
}

#[test]
fn the_end_of_the_connection_cleans_up() {
    for frame in [Inbound::Close, Inbound::Failed, Inbound::Ended] {
        let mut session = active("Alice");
        let actions = session.step(Event::Inbound(frame));
        assert_eq!(
            actions,
            vec![Action::Delete(text("Alice")), Action::Publish(Channel::Leaves, text("Alice"))]
        );
        assert_eq!(session.phase(), Phase::Closed);
        assert_eq!(session.step(Event::Inbound(Inbound::Close)), vec![]);
        assert_eq!(session.step(Event::Tick), vec![]);
        assert_eq!(session.step(Event::StoreFailed(text("late"))), vec![]);
    }
}

#[test]
fn a_store_failure_tells_the_client_and_cleans_up() {
    let mut session = active("Alice");
    let actions = session.step(Event::StoreFailed(text("Failed to increment key on click")));
    assert_eq!(
        actions,
        vec![
            Action::SendError(Error(500, text("Failed to increment key on click"))),
            Action::Delete(text("Alice")),
            Action::Publish(Channel::Leaves, text("Alice")),
        ]
    );
    assert_eq!(session.phase(), Phase::Closed);
}

#[test]
fn alice_plays_alone() {
    let mut world = world();
    let alice = connect(&mut world, "Alice");
    assert_eq!(world.store.get("Alice"), Some(&0));
    assert_eq!(world.published, vec![(Channel::Joins, text("Alice"))]);

    deliver(&mut world, alice, Event::Tick);
    assert_eq!(
        last_snapshot(&world, alice),
        GameMessage { updates: Some(vec![pair("Alice", 0)]), clicks: None, clear: Some(true) }
    );

    let click =
        GameMessage { updates: None, clicks: Some(vec![pair("Alice", 10_000)]), clear: None };
    deliver(&mut world, alice, Event::Inbound(Inbound::Binary(click.encode().unwrap())));
    assert_eq!(world.store.get("Alice"), Some(&10_000));

    deliver(&mut world, alice, Event::Tick);
    assert_eq!(
        last_snapshot(&world, alice),
        GameMessage { updates: Some(vec![pair("Alice", 10_000)]), clicks: None, clear: Some(false) }
    );

    deliver(&mut world, alice, Event::Inbound(Inbound::Close));
    assert_eq!(world.store.get("Alice"), None);
    assert_eq!(
        world.published,
        vec![(Channel::Joins, text("Alice")), (Channel::Leaves, text("Alice"))]
    );
    assert_eq!(world.sessions[alice].0.phase(), Phase::Closed);
}

#[test]
fn bob_clicks_alice_down() {
    let mut world = world();
    let alice = connect(&mut world, "Alice");
    let bob = connect(&mut world, "Bob");
    deliver(&mut world, alice, Event::Tick);
    assert_eq!(
        last_snapshot(&world, alice),
        GameMessage {
            updates: Some(vec![pair("Alice", 0), pair("Bob", 0)]),
            clicks: None,
            clear: Some(true),
        }
    );

    let click =
        GameMessage { updates: None, clicks: Some(vec![pair("Alice", -10_000)]), clear: None };
    deliver(&mut world, bob, Event::Inbound(Inbound::Binary(click.encode().unwrap())));
    assert_eq!(world.store.get("Alice"), Some(&-10_000));

    deliver(&mut world, alice, Event::Tick);
    assert_eq!(
        last_snapshot(&world, alice),
        GameMessage {
            updates: Some(vec![pair("Alice", -10_000), pair("Bob", 0)]),
            clicks: None,
            clear: Some(false),
        }
    );
    // Bob has seen Alice in the store and himself through his own join
    deliver(&mut world, bob, Event::Tick);
    assert_eq!(
        last_snapshot(&world, bob).updates,
        Some(vec![pair("Alice", -10_000), pair("Bob", 0)])
    );
}

#[test]
fn a_leave_reaches_the_peers_with_clear_set() {
    let mut world = world();
    let alice = connect(&mut world, "Alice");
    let bob = connect(&mut world, "Bob");
    let watcher = connect(&mut world, "Bradshaw");
    assert_eq!(world.store.get("Bradshaw"), None);
    deliver(&mut world, watcher, Event::Tick);
    assert_eq!(
        last_snapshot(&world, watcher).updates,
        Some(vec![pair("Alice", 0), pair("Bob", 0)])
    );
    deliver(&mut world, alice, Event::Tick);
    deliver(&mut world, bob, Event::Inbound(Inbound::Ended));
    deliver(&mut world, alice, Event::Tick);
    assert_eq!(
        last_snapshot(&world, alice),
        GameMessage { updates: Some(vec![pair("Alice", 0)]), clicks: None, clear: Some(true) }
    );
    deliver(&mut world, watcher, Event::Tick);
    assert_eq!(
        last_snapshot(&world, watcher),
        GameMessage { updates: Some(vec![pair("Alice", 0)]), clicks: None, clear: Some(true) }
    );
    assert!(!world.published.iter().any(|(_, name)| name == "Bradshaw"));
}

#[test]
fn increments_add_up_in_any_order() {
    let deltas: Vec<(&str, i64)> =
        vec![("Alice", 10_000), ("Bob", -10_000), ("Alice", -10_000), ("Alice", 30_000)];
    let orders: Vec<Vec<usize>> = vec![vec![0, 1, 2, 3], vec![3, 2, 1, 0], vec![2, 0, 3, 1]];
    for order in orders {
        let mut world = world();
        let bob = connect(&mut world, "Bob");
        world.store.insert(text("Alice"), 5);
        for i in order {
            let click = GameMessage {
                updates: None,
                clicks: Some(vec![pair(deltas[i].0, deltas[i].1)]),
                clear: None,
            };
            deliver(&mut world, bob, Event::Inbound(Inbound::Binary(click.encode().unwrap())));
        }
        assert_eq!(world.store.get("Alice"), Some(&30_005));
        assert_eq!(world.store.get("Bob"), Some(&-10_000));
    }
}

#[test]
fn names_in_notifications_are_decoded_as_utf8() {
    let mut session = active("Alice");
    session.step(Event::Push(notification("joins", "Zoë")));
    session.step(Event::Push(notification("joins", "日本語")));
    assert_eq!(watched(&session), vec![text("Zoë"), text("日本語")]);
    session.step(Event::Push(notification("leaves", "Zoë")));
    assert_eq!(watched(&session), vec![text("日本語")]);
}
