use chat_room::room::log::{entry_key, HISTORY_LIMIT};
use chat_room::room::message::Message;

fn record(timestamp: u64) -> Message {
    Message::Broadcast { name: String::from("alice"), content: String::from("hi"), timestamp }
}

#[test]
fn history_limit_is_one_hundred() {
    assert_eq!(HISTORY_LIMIT, 100);
}

#[test]
fn key_is_the_timestamp_in_decimal() {
    assert_eq!(entry_key(0), "0");
    assert_eq!(entry_key(7), "7");
    assert_eq!(entry_key(10), "10");
    assert_eq!(entry_key(1_700_000_000), "1700000000");
    assert_eq!(entry_key(9_876_543_210), "9876543210");
    assert_eq!(entry_key(u64::MAX), "18446744073709551615");
}

#[test]
fn key_agrees_with_the_standard_formatting() {
    let mut timestamp: u64 = 1;
    while timestamp < u64::MAX / 7 {
        assert_eq!(entry_key(timestamp), timestamp.to_string());
        assert_eq!(entry_key(timestamp - 1), (timestamp - 1).to_string());
        timestamp *= 7;
    }
}

#[test]
fn load_last_n_keeps_the_front_of_the_listing() {
    let listed = vec![record(5), record(4), record(3)];
    assert_eq!(Message::load_last_n(2, listed), vec![record(5), record(4)]);
}

#[test]
fn load_last_n_keeps_a_short_listing_whole() {
    let listed = vec![record(5), record(4)];
    assert_eq!(Message::load_last_n(100, listed), vec![record(5), record(4)]);
    assert_eq!(Message::load_last_n(0, vec![record(1)]), vec![]);
    assert_eq!(Message::load_last_n(3, vec![]), vec![]);
}

#[test]
fn error_message_carries_its_text() {
    assert_eq!(
        Message::error("expected Text message"),
        Message::Error { message: String::from("expected Text message") }
    );
}

#[test]
fn clone_keeps_every_field() {
    let all = vec![
        Message::JoinRequest { name: String::from("a") },
        Message::Ready { ready: true },
        Message::Ready { ready: false },
        Message::MemberJoined { name: String::from("b") },
        Message::MemberQuitted { name: String::from("c") },
        Message::Text { content: String::from("d") },
        record(42),
        Message::Error { message: String::from("e") },
    ];
    for message in &all {
        assert_eq!(&message.clone(), message);
    }
}
