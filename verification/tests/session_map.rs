use chat_room::room::error::RoomError;
use chat_room::room::message::Message;
use chat_room::room::session::Session;
use chat_room::room::session_map::SessionMap;

fn active(name: &str) -> Session {
    Session::Active { username: String::from(name) }
}

fn text(content: &str) -> Message {
    Message::Text { content: String::from(content) }
}

#[test]
fn new_table_is_empty() {
    let table = SessionMap::new();
    assert_eq!(table.len(), 0);
    assert_eq!(table.index_of(1), None);
    assert_eq!(table.get(1), None);
    assert!(!table.is_username_in_use("alice"));
}

#[test]
fn insert_appends_in_admission_order() {
    let mut table = SessionMap::new();
    assert_eq!(table.insert(30, Session::new()), Ok(()));
    assert_eq!(table.insert(10, active("alice")), Ok(()));
    assert_eq!(table.insert(20, active("bob")), Ok(()));
    assert_eq!(table.len(), 3);
    assert_eq!(table.connection_at(0), 30);
    assert_eq!(table.connection_at(1), 10);
    assert_eq!(table.connection_at(2), 20);
    assert_eq!(table.index_of(10), Some(1));
    assert_eq!(table.session_at(2), &active("bob"));
    assert_eq!(table.get(10), Some(&active("alice")));
    assert_eq!(table.get(40), None);
}

#[test]
fn insert_replaces_the_session_of_a_known_connection() {
    let mut table = SessionMap::new();
    assert_eq!(table.insert(1, active("alice")), Ok(()));
    assert_eq!(table.insert(2, active("bob")), Ok(()));
    assert_eq!(table.insert(1, Session::new()), Ok(()));
    assert_eq!(table.len(), 2);
    assert_eq!(table.index_of(1), Some(0));
    assert_eq!(table.get(1), Some(&Session::new()));
    assert!(!table.is_username_in_use("alice"));
    assert!(table.is_username_in_use("bob"));
}

#[test]
fn insert_refuses_a_name_held_by_another_connection() {
    let mut table = SessionMap::new();
    assert_eq!(table.insert(1, active("alice")), Ok(()));
    assert_eq!(table.insert(2, active("alice")), Err(RoomError::DuplicateIdentity));
    assert_eq!(table.len(), 1);
    assert_eq!(table.get(2), None);
    assert_eq!(table.get(1), Some(&active("alice")));
}

#[test]
fn insert_lets_a_connection_keep_its_own_name() {
    let mut table = SessionMap::new();
    assert_eq!(table.insert(1, active("alice")), Ok(()));
    assert_eq!(table.insert(1, active("alice")), Ok(()));
    assert_eq!(table.len(), 1);
}

#[test]
fn remove_hands_back_the_session_and_closes_the_gap() {
    let mut table = SessionMap::new();
    assert_eq!(table.insert(1, active("alice")), Ok(()));
    assert_eq!(table.insert(2, Session::new()), Ok(()));
    assert_eq!(table.insert(3, active("carol")), Ok(()));
    assert_eq!(table.remove(2), Some(Session::new()));
    assert_eq!(table.len(), 2);
    assert_eq!(table.index_of(3), Some(1));
    assert_eq!(table.remove(2), None);
    assert_eq!(table.remove(1), Some(active("alice")));
    assert!(!table.is_username_in_use("alice"));
    assert_eq!(table.connection_at(0), 3);
}

#[test]
fn remove_at_takes_the_entry_of_that_place() {
    let mut table = SessionMap::new();
    assert_eq!(table.insert(5, active("alice")), Ok(()));
    assert_eq!(table.insert(6, active("bob")), Ok(()));
    assert_eq!(table.remove_at(0), (5, active("alice")));
    assert_eq!(table.len(), 1);
    assert_eq!(table.connection_at(0), 6);
}

#[test]
fn a_removed_name_is_free_again() {
    let mut table = SessionMap::new();
    assert_eq!(table.insert(1, active("alice")), Ok(()));
    assert_eq!(table.remove(1), Some(active("alice")));
    assert_eq!(table.insert(2, active("alice")), Ok(()));
}

#[test]
fn a_queued_name_is_not_in_use() {
    let mut table = SessionMap::new();
    let mut waiting = Session::new();
    waiting.enqueue_message(Message::MemberJoined { name: String::from("alice") });
    assert_eq!(table.insert(1, waiting), Ok(()));
    assert!(!table.is_username_in_use("alice"));
}

#[test]
fn enqueue_at_and_take_queue_at_work_on_one_entry() {
    let mut table = SessionMap::new();
    assert_eq!(table.insert(1, Session::new()), Ok(()));
    assert_eq!(table.insert(2, Session::new()), Ok(()));
    table.enqueue_at(1, text("a"));
    table.enqueue_at(1, text("b"));
    assert_eq!(table.session_at(0), &Session::new());
    assert_eq!(table.session_at(1).queued_messages(), &[text("a"), text("b")][..]);
    assert_eq!(table.take_queue_at(1), vec![text("a"), text("b")]);
    assert_eq!(table.session_at(1), &Session::new());
    assert_eq!(table.take_queue_at(0), vec![]);
}

#[test]
fn activate_at_makes_the_entry_active() {
    let mut table = SessionMap::new();
    assert_eq!(table.insert(1, Session::new()), Ok(()));
    assert_eq!(table.activate_at(0, String::from("alice")), Ok(()));
    assert_eq!(table.get(1), Some(&active("alice")));
    assert!(table.is_username_in_use("alice"));
}

#[test]
fn activate_at_refuses_an_active_entry() {
    let mut table = SessionMap::new();
    assert_eq!(table.insert(1, active("alice")), Ok(()));
    assert_eq!(table.activate_at(0, String::from("bob")), Err(RoomError::InvalidTransition));
    assert_eq!(table.get(1), Some(&active("alice")));
    assert!(!table.is_username_in_use("bob"));
}
