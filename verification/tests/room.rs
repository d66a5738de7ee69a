use chat_room::room::delivery::Delivery;
use chat_room::room::error::RoomError;
use chat_room::room::message::Message;
use chat_room::room::routing::{Command, Inbound, Outcome};
use chat_room::room::session::{Metadata, Session};
use chat_room::room::Room;

fn named(name: &str) -> Option<Metadata> {
    Some(Metadata { username: Some(String::from(name)) })
}

fn active(name: &str) -> Session {
    Session::Active { username: String::from(name) }
}

fn join(name: &str) -> Inbound {
    Inbound::Parsed(Message::JoinRequest { name: String::from(name) })
}

fn say(content: &str) -> Inbound {
    Inbound::Parsed(Message::Text { content: String::from(content) })
}

fn joined(name: &str) -> Message {
    Message::MemberJoined { name: String::from(name) }
}

fn quitted(name: &str) -> Message {
    Message::MemberQuitted { name: String::from(name) }
}

fn record(name: &str, content: &str, timestamp: u64) -> Message {
    Message::Broadcast { name: String::from(name), content: String::from(content), timestamp }
}

fn rejected(reason: RoomError, text: &str) -> Outcome {
    Outcome::Rejected { reason, reply: Message::Error { message: String::from(text) } }
}

fn to(conn: u64, message: Message) -> Delivery {
    Delivery { to: conn, message }
}

fn queue_of(room: &Room, conn: u64) -> Vec<Message> {
    match room.sessions().get(conn) {
        Some(Session::Preparing { queue }) => queue.clone(),
        other => panic!("connection {} is not preparing: {:?}", conn, other),
    }
}

#[test]
fn new_room_restores_only_named_connections() {
    let room = Room::new(vec![
        (1, named("alice")),
        (2, None),
        (3, Some(Metadata { username: None })),
        (4, named("bob")),
    ]);
    assert_eq!(room.name(), None);
    assert_eq!(room.sessions().len(), 2);
    assert_eq!(room.sessions().get(1), Some(&active("alice")));
    assert_eq!(room.sessions().get(4), Some(&active("bob")));
    assert!(!room.has_session(2));
    assert!(!room.has_session(3));
    assert!(room.has_session(4));
}

#[test]
fn new_room_keeps_the_first_holder_of_a_name() {
    let room = Room::new(vec![(1, named("alice")), (2, named("alice")), (3, named("bob"))]);
    assert_eq!(room.sessions().len(), 2);
    assert_eq!(room.sessions().get(1), Some(&active("alice")));
    assert!(!room.has_session(2));
    assert_eq!(room.sessions().get(3), Some(&active("bob")));
}

#[test]
fn new_room_takes_the_last_attachment_of_a_connection() {
    let room = Room::new(vec![(1, named("alice")), (1, named("bob"))]);
    assert_eq!(room.sessions().len(), 1);
    assert_eq!(room.sessions().get(1), Some(&active("bob")));
}

#[test]
fn admission_queues_the_roster_then_the_history_oldest_first() {
    let mut room = Room::new(vec![(1, named("alice")), (2, named("bob"))]);
    room.register_session(
        3,
        vec![record("bob", "third", 30), record("alice", "second", 20), record("bob", "first", 10)],
    );
    assert_eq!(
        queue_of(&room, 3),
        vec![
            joined("alice"),
            joined("bob"),
            record("bob", "first", 10),
            record("alice", "second", 20),
            record("bob", "third", 30),
        ]
    );
    assert_eq!(room.sessions().index_of(3), Some(2));
}

#[test]
fn admission_leaves_preparing_sessions_out_of_the_roster() {
    let mut room = Room::new(vec![(1, named("alice"))]);
    room.register_session(2, vec![]);
    room.register_session(3, vec![]);
    assert_eq!(queue_of(&room, 2), vec![joined("alice")]);
    assert_eq!(queue_of(&room, 3), vec![joined("alice")]);
}

#[test]
fn admission_replays_at_most_one_hundred_entries() {
    let mut room = Room::new(vec![]);
    let mut listed = Vec::new();
    let mut timestamp: u64 = 150;
    while timestamp > 0 {
        listed.push(record("alice", "x", timestamp));
        timestamp -= 1;
    }
    room.register_session(1, listed);
    let queue = queue_of(&room, 1);
    assert_eq!(queue.len(), 100);
    assert_eq!(queue[0], record("alice", "x", 51));
    assert_eq!(queue[1], record("alice", "x", 52));
    assert_eq!(queue[99], record("alice", "x", 150));
}

#[test]
fn admission_of_a_known_connection_replaces_its_session() {
    let mut room = Room::new(vec![(1, named("alice")), (2, named("bob"))]);
    room.register_session(1, vec![]);
    assert_eq!(room.sessions().len(), 2);
    assert_eq!(room.sessions().index_of(1), Some(0));
    assert_eq!(queue_of(&room, 1), vec![joined("bob")]);
}

#[test]
fn a_frame_without_text_is_malformed() {
    let mut room = Room::new(vec![(1, named("alice"))]);
    assert_eq!(
        room.websocket_message(1, Inbound::NotText, 5),
        rejected(RoomError::MalformedMessage, "expected text frame")
    );
    assert_eq!(
        room.websocket_message(9, Inbound::NotText, 5),
        rejected(RoomError::MalformedMessage, "expected text frame")
    );
}

#[test]
fn text_that_is_no_message_is_malformed() {
    let mut room = Room::new(vec![(1, named("alice"))]);
    assert_eq!(
        room.websocket_message(1, Inbound::Malformed, 5),
        rejected(RoomError::MalformedMessage, "unexpected format of message")
    );
    assert_eq!(room.sessions().get(1), Some(&active("alice")));
}

#[test]
fn text_before_joining_is_a_protocol_violation() {
    let mut room = Room::new(vec![(1, named("alice"))]);
    room.register_session(2, vec![]);
    assert_eq!(
        room.websocket_message(2, say("hello"), 5),
        rejected(RoomError::ProtocolViolation, "expected JoinRequest message")
    );
    assert_eq!(queue_of(&room, 2), vec![joined("alice")]);
    assert_eq!(room.sessions().len(), 2);
}

#[test]
fn every_kind_but_a_join_request_is_refused_while_preparing() {
    let others = vec![
        Message::Ready { ready: true },
        joined("x"),
        quitted("x"),
        Message::Text { content: String::from("x") },
        record("x", "y", 1),
        Message::Error { message: String::from("x") },
    ];
    for message in others {
        let mut room = Room::new(vec![]);
        room.register_session(1, vec![]);
        assert_eq!(
            room.websocket_message(1, Inbound::Parsed(message), 5),
            rejected(RoomError::ProtocolViolation, "expected JoinRequest message")
        );
        assert_eq!(room.sessions().get(1), Some(&Session::new()));
    }
}

#[test]
fn every_kind_but_text_is_refused_while_active() {
    let others = vec![
        Message::JoinRequest { name: String::from("x") },
        Message::Ready { ready: true },
        joined("x"),
        quitted("x"),
        record("x", "y", 1),
        Message::Error { message: String::from("x") },
    ];
    for message in others {
        let mut room = Room::new(vec![(1, named("alice"))]);
        assert_eq!(
            room.websocket_message(1, Inbound::Parsed(message), 5),
            rejected(RoomError::ProtocolViolation, "expected Text message")
        );
        assert_eq!(room.sessions().get(1), Some(&active("alice")));
    }
}

#[test]
fn a_taken_name_is_a_duplicate_identity() {
    let mut room = Room::new(vec![(1, named("alice"))]);
    room.register_session(2, vec![]);
    assert_eq!(
        room.websocket_message(2, join("alice"), 5),
        rejected(RoomError::DuplicateIdentity, "username already used")
    );
    assert_eq!(queue_of(&room, 2), vec![joined("alice")]);
}

#[test]
fn joining_flushes_the_queue_and_tells_the_others() {
    let mut room = Room::new(vec![(1, named("alice")), (2, named("bob"))]);
    room.register_session(3, vec![record("alice", "old", 7)]);
    room.register_session(4, vec![]);
    assert_eq!(
        room.websocket_message(3, join("carol"), 9),
        Outcome::Joined {
            flushed: vec![joined("alice"), joined("bob"), record("alice", "old", 7)],
            attachment: Metadata { username: Some(String::from("carol")) },
            deliveries: vec![to(1, joined("carol")), to(2, joined("carol"))],
            ready: Message::Ready { ready: true },
        }
    );
    assert_eq!(room.sessions().get(3), Some(&active("carol")));
    assert_eq!(queue_of(&room, 4), vec![joined("alice"), joined("bob"), joined("carol")]);
}

#[test]
fn text_from_an_active_session_becomes_a_record() {
    let mut room = Room::new(vec![(1, named("alice"))]);
    room.register_session(2, vec![]);
    assert_eq!(
        room.websocket_message(1, say("hello"), 1_700_000_000),
        Outcome::Publish {
            key: String::from("1700000000"),
            record: record("alice", "hello", 1_700_000_000),
        }
    );
    assert_eq!(queue_of(&room, 2), vec![joined("alice")]);
}

#[test]
fn broadcast_reaches_the_active_and_queues_on_the_preparing() {
    let mut room = Room::new(vec![(1, named("alice")), (3, named("carol"))]);
    room.register_session(2, vec![]);
    let deliveries = room.broadcast(record("alice", "hi", 5));
    assert_eq!(deliveries, vec![to(1, record("alice", "hi", 5)), to(3, record("alice", "hi", 5))]);
    assert_eq!(
        queue_of(&room, 2),
        vec![joined("alice"), joined("carol"), record("alice", "hi", 5)]
    );
}

#[test]
fn broadcast_in_an_empty_room_delivers_nothing() {
    let mut room = Room::new(vec![]);
    assert_eq!(room.broadcast(joined("x")), vec![]);
}

#[test]
fn broadcasts_keep_their_order_in_a_queue() {
    let mut room = Room::new(vec![]);
    room.register_session(1, vec![]);
    assert_eq!(room.broadcast(joined("a")), vec![]);
    assert_eq!(room.broadcast(quitted("a")), vec![]);
    assert_eq!(queue_of(&room, 1), vec![joined("a"), quitted("a")]);
}

#[test]
fn failed_deliveries_cost_the_session_and_are_announced() {
    let mut room = Room::new(vec![
        (1, named("alice")),
        (2, named("bob")),
        (3, named("carol")),
        (4, named("dave")),
    ]);
    room.register_session(5, vec![]);
    let first = room.broadcast(record("alice", "hi", 5));
    assert_eq!(first.len(), 4);
    let second = room.delivery_failed(&vec![4, 2]);
    assert_eq!(
        second,
        vec![
            to(1, quitted("bob")),
            to(3, quitted("bob")),
            to(1, quitted("dave")),
            to(3, quitted("dave")),
        ]
    );
    assert_eq!(room.sessions().len(), 3);
    assert!(!room.has_session(2));
    assert!(!room.has_session(4));
    let queue = queue_of(&room, 5);
    assert_eq!(queue[queue.len() - 2..], [quitted("bob"), quitted("dave")]);
    assert_eq!(room.delivery_failed(&vec![]), vec![]);
    assert_eq!(room.sessions().len(), 3);
}

#[test]
fn a_failed_preparing_session_leaves_without_notice() {
    let mut room = Room::new(vec![(1, named("alice"))]);
    room.register_session(2, vec![]);
    assert_eq!(room.delivery_failed(&vec![2]), vec![]);
    assert_eq!(room.sessions().len(), 1);
    assert!(!room.has_session(2));
}

#[test]
fn a_failure_reported_twice_is_announced_once() {
    let mut room = Room::new(vec![(1, named("alice")), (2, named("bob"))]);
    assert_eq!(room.delivery_failed(&vec![2, 2, 9]), vec![to(1, quitted("bob"))]);
    assert_eq!(room.sessions().len(), 1);
}

#[test]
fn a_cascade_ends_when_nobody_is_left() {
    let mut room = Room::new(vec![(1, named("alice")), (2, named("bob"))]);
    let first = room.broadcast(joined("x"));
    assert_eq!(first.len(), 2);
    let second = room.delivery_failed(&vec![1]);
    assert_eq!(second, vec![to(2, quitted("alice"))]);
    let third = room.delivery_failed(&vec![2]);
    assert_eq!(third, vec![]);
    assert_eq!(room.sessions().len(), 0);
}

#[test]
fn closing_an_active_connection_is_announced() {
    let mut room = Room::new(vec![(1, named("alice")), (2, named("bob"))]);
    room.register_session(3, vec![]);
    assert_eq!(room.websocket_close(1), vec![to(2, quitted("alice"))]);
    assert!(!room.has_session(1));
    assert_eq!(queue_of(&room, 3), vec![joined("alice"), joined("bob"), quitted("alice")]);
}

#[test]
fn closing_a_preparing_or_unknown_connection_is_silent() {
    let mut room = Room::new(vec![(1, named("alice"))]);
    room.register_session(2, vec![]);
    assert_eq!(room.websocket_close(2), vec![]);
    assert_eq!(room.websocket_close(7), vec![]);
    assert_eq!(room.sessions().len(), 1);
    assert_eq!(room.sessions().get(1), Some(&active("alice")));
}

#[test]
fn a_name_is_free_again_after_its_holder_left() {
    let mut room = Room::new(vec![(1, named("alice"))]);
    room.register_session(2, vec![]);
    assert_eq!(room.websocket_close(1), vec![]);
    match room.websocket_message(2, join("alice"), 5) {
        Outcome::Joined { flushed, .. } => {
            assert_eq!(flushed, vec![joined("alice"), quitted("alice")]);
        },
        other => panic!("expected a join, got {:?}", other),
    }
}

#[test]
fn a_rejection_leaves_one_reply_to_send() {
    let outcome = rejected(RoomError::ProtocolViolation, "expected Text message");
    assert_eq!(
        outcome.into_commands(7),
        vec![Command::Send {
            to: 7,
            message: Message::Error { message: String::from("expected Text message") },
        }]
    );
}

#[test]
fn a_join_is_carried_out_in_order() {
    let mut room = Room::new(vec![(1, named("alice")), (2, named("bob"))]);
    room.register_session(3, vec![record("alice", "old", 7)]);
    let commands = room.websocket_message(3, join("carol"), 9).into_commands(3);
    assert_eq!(
        commands,
        vec![
            Command::Send { to: 3, message: joined("alice") },
            Command::Send { to: 3, message: joined("bob") },
            Command::Send { to: 3, message: record("alice", "old", 7) },
            Command::Attach { to: 3, metadata: Metadata { username: Some(String::from("carol")) } },
            Command::Send { to: 1, message: joined("carol") },
            Command::Send { to: 2, message: joined("carol") },
            Command::Send { to: 3, message: Message::Ready { ready: true } },
        ]
    );
}

#[test]
fn a_record_is_persisted_before_anything_is_sent() {
    let mut room = Room::new(vec![(1, named("alice")), (2, named("bob"))]);
    let commands = room.websocket_message(2, say("hi"), 42).into_commands(2);
    assert_eq!(
        commands,
        vec![Command::Persist { key: String::from("42"), record: record("bob", "hi", 42) }]
    );
}
