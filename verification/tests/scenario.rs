use chat_room::room::delivery::Delivery;
use chat_room::room::error::RoomError;
use chat_room::room::message::Message;
use chat_room::room::routing::{Inbound, Outcome};
use chat_room::room::session::{Metadata, Session};
use chat_room::room::Room;

fn join(name: &str) -> Inbound {
    Inbound::Parsed(Message::JoinRequest { name: String::from(name) })
}

fn joined(name: &str) -> Message {
    Message::MemberJoined { name: String::from(name) }
}

fn names_in_use(room: &Room) -> Vec<String> {
    let mut names = Vec::new();
    let mut index = 0;
    while index < room.sessions().len() {
        if let Some(name) = room.sessions().session_at(index).username() {
            names.push(String::from(name));
        }
        index += 1;
    }
    names
}

#[test]
fn two_connections_join_and_chat() {
    let mut room = Room::new(vec![]);
    let mut log: Vec<(String, Message)> = Vec::new();

    room.register_session(1, vec![]);
    assert_eq!(
        room.websocket_message(1, join("alice"), 100),
        Outcome::Joined {
            flushed: vec![],
            attachment: Metadata { username: Some(String::from("alice")) },
            deliveries: vec![],
            ready: Message::Ready { ready: true },
        }
    );

    room.register_session(2, vec![]);
    assert_eq!(
        room.websocket_message(2, join("alice"), 101),
        Outcome::Rejected {
            reason: RoomError::DuplicateIdentity,
            reply: Message::Error { message: String::from("username already used") },
        }
    );
    assert!(room.sessions().get(2).unwrap().is_preparing());

    assert_eq!(
        room.websocket_message(2, join("bob"), 102),
        Outcome::Joined {
            flushed: vec![joined("alice")],
            attachment: Metadata { username: Some(String::from("bob")) },
            deliveries: vec![Delivery { to: 1, message: joined("bob") }],
            ready: Message::Ready { ready: true },
        }
    );
    assert_eq!(room.sessions().get(2), Some(&Session::Active { username: String::from("bob") }));

    let said = Inbound::Parsed(Message::Text { content: String::from("hi") });
    let record = match room.websocket_message(1, said, 103) {
        Outcome::Publish { key, record } => {
            assert_eq!(key, "103");
            log.push((key, record.clone()));
            record
        },
        other => panic!("expected a record to publish, got {:?}", other),
    };
    let expected = Message::Broadcast {
        name: String::from("alice"),
        content: String::from("hi"),
        timestamp: 103,
    };
    assert_eq!(record, expected);
    assert_eq!(
        room.broadcast(record),
        vec![
            Delivery { to: 1, message: expected.clone() },
            Delivery { to: 2, message: expected.clone() },
        ]
    );
    assert_eq!(log, vec![(String::from("103"), expected)]);
}

#[test]
fn names_stay_unique_through_joins_and_restoration() {
    let restored = vec![
        (1, Some(Metadata { username: Some(String::from("alice")) })),
        (2, Some(Metadata { username: Some(String::from("alice")) })),
    ];
    let mut room = Room::new(restored);
    room.register_session(3, vec![]);
    room.register_session(4, vec![]);
    let _ = room.websocket_message(3, join("alice"), 1);
    let _ = room.websocket_message(3, join("bob"), 2);
    let _ = room.websocket_message(4, join("bob"), 3);
    let _ = room.websocket_message(4, join("alice"), 4);
    let _ = room.websocket_message(4, join("carol"), 5);
    let mut names = names_in_use(&room);
    assert_eq!(names, vec!["alice", "bob", "carol"]);
    names.sort();
    names.dedup();
    assert_eq!(names.len(), 3);
}

#[test]
fn the_joiner_sees_the_tail_of_the_log_in_ascending_order() {
    let mut log: Vec<Message> = Vec::new();
    let mut timestamp: u64 = 1;
    while timestamp <= 130 {
        log.push(Message::Broadcast {
            name: String::from("alice"),
            content: format!("message {}", timestamp),
            timestamp,
        });
        timestamp += 1;
    }
    let mut listed: Vec<Message> = log.iter().rev().take(100).cloned().collect();
    let mut room = Room::new(vec![]);
    room.register_session(1, std::mem::take(&mut listed));
    let live = Message::MemberJoined { name: String::from("late") };
    assert_eq!(room.broadcast(live.clone()), vec![]);
    match room.websocket_message(1, join("bob"), 200) {
        Outcome::Joined { flushed, .. } => {
            assert_eq!(flushed.len(), 101);
            assert_eq!(flushed[..100], log[30..]);
            assert_eq!(flushed[100], live);
        },
        other => panic!("expected a join, got {:?}", other),
    }
}

#[test]
fn every_active_session_gets_the_text_of_a_participant() {
    let restored = vec![
        (1, Some(Metadata { username: Some(String::from("alice")) })),
        (2, Some(Metadata { username: Some(String::from("bob")) })),
        (3, Some(Metadata { username: Some(String::from("carol")) })),
    ];
    let mut room = Room::new(restored);
    let said = Inbound::Parsed(Message::Text { content: String::from("good morning") });
    let record = match room.websocket_message(2, said, 500) {
        Outcome::Publish { record, .. } => record,
        other => panic!("expected a record to publish, got {:?}", other),
    };
    let expected = Message::Broadcast {
        name: String::from("bob"),
        content: String::from("good morning"),
        timestamp: 500,
    };
    let deliveries = room.broadcast(record);
    for conn in [1u64, 2, 3] {
        assert!(deliveries.contains(&Delivery { to: conn, message: expected.clone() }));
    }
    assert_eq!(deliveries.len(), 3);
}

#[test]
fn a_broadcast_with_unreachable_sessions_ends_after_removing_them() {
    let unreachable = [2u64, 5];
    let restored = vec![
        (1, Some(Metadata { username: Some(String::from("a")) })),
        (2, Some(Metadata { username: Some(String::from("b")) })),
        (3, Some(Metadata { username: Some(String::from("c")) })),
        (4, Some(Metadata { username: Some(String::from("d")) })),
        (5, Some(Metadata { username: Some(String::from("e")) })),
    ];
    let mut room = Room::new(restored);
    let mut pass = room.broadcast(Message::Text { content: String::from("x") });
    let mut rounds = 0;
    let mut notices = 0;
    while !pass.is_empty() {
        let failed: Vec<u64> =
            pass.iter().filter(|d| unreachable.contains(&d.to)).map(|d| d.to).collect();
        let before = room.sessions().len();
        pass = room.delivery_failed(&failed);
        notices += before - room.sessions().len();
        rounds += 1;
        assert!(rounds <= 5);
    }
    assert_eq!(rounds, 2);
    assert_eq!(notices, 2);
    assert_eq!(room.sessions().len(), 3);
    assert_eq!(names_in_use(&room), vec!["a", "c", "d"]);
}

#[test]
fn text_before_a_join_changes_nothing() {
    let mut room = Room::new(vec![(1, Some(Metadata { username: Some(String::from("alice")) }))]);
    room.register_session(2, vec![]);
    let said = Inbound::Parsed(Message::Text { content: String::from("hi") });
    match room.websocket_message(2, said, 9) {
        Outcome::Rejected { reason, reply } => {
            assert_eq!(reason, RoomError::ProtocolViolation);
            assert_eq!(
                reply,
                Message::Error { message: String::from("expected JoinRequest message") }
            );
        },
        other => panic!("expected a rejection, got {:?}", other),
    }
    assert_eq!(room.sessions().get(2), Some(&Session::Preparing { queue: vec![joined("alice")] }));
    assert_eq!(room.sessions().get(1), Some(&Session::Active { username: String::from("alice") }));
}
