use chat_room::room::error::RoomError;
use chat_room::room::message::Message;
use chat_room::room::session::{Metadata, Session};

fn text(content: &str) -> Message {
    Message::Text { content: String::from(content) }
}

#[test]
fn new_session_is_preparing_with_nothing_queued() {
    let session = Session::new();
    assert!(session.is_preparing());
    assert!(session.queued_messages().is_empty());
    assert_eq!(session.username(), None);
    assert_eq!(session, Session::Preparing { queue: vec![] });
}

#[test]
fn anonymous_until_prepared() {
    let mut session = Session::new();
    assert_eq!(session.username_or_anonymous(), "<anonymous>");
    assert_eq!(session.mark_as_prepared_for(String::from("alice")), Ok(()));
    assert!(!session.is_preparing());
    assert_eq!(session.username(), Some("alice"));
    assert_eq!(session.username_or_anonymous(), "alice");
}

#[test]
fn queue_is_first_in_first_out() {
    let mut session = Session::new();
    session.enqueue_message(text("one"));
    session.enqueue_message(text("two"));
    session.enqueue_message(text("three"));
    assert_eq!(session.queued_messages(), &[text("one"), text("two"), text("three")][..]);
    let taken = session.take_queued_messages();
    assert_eq!(taken, vec![text("one"), text("two"), text("three")]);
    assert!(session.queued_messages().is_empty());
    assert!(session.is_preparing());
}

#[test]
fn taking_from_an_active_session_gives_nothing() {
    let mut session = Session::Active { username: String::from("alice") };
    assert!(session.take_queued_messages().is_empty());
    assert!(session.queued_messages().is_empty());
    assert_eq!(session.username(), Some("alice"));
}

#[test]
fn marking_drops_what_was_queued() {
    let mut session = Session::new();
    session.enqueue_message(text("lost"));
    assert_eq!(session.mark_as_prepared_for(String::from("bob")), Ok(()));
    assert_eq!(session, Session::Active { username: String::from("bob") });
    assert!(session.queued_messages().is_empty());
}

#[test]
fn marking_moves_preparing_to_active() {
    let mut session = Session::new();
    assert_eq!(session.mark_as_prepared_for(String::from("alice")), Ok(()));
    assert_eq!(session, Session::Active { username: String::from("alice") });
}

#[test]
fn marking_twice_is_an_invalid_transition() {
    let mut session = Session::new();
    assert_eq!(session.mark_as_prepared_for(String::from("alice")), Ok(()));
    assert_eq!(
        session.mark_as_prepared_for(String::from("bob")),
        Err(RoomError::InvalidTransition)
    );
    assert_eq!(session, Session::Active { username: String::from("alice") });
    assert_eq!(
        session.mark_as_prepared_for(String::from("alice")),
        Err(RoomError::InvalidTransition)
    );
    assert_eq!(session.username(), Some("alice"));
}

#[test]
fn only_an_active_session_has_a_name_to_attach() {
    assert_eq!(Session::new().metadata(), Metadata { username: None });
    let active = Session::Active { username: String::from("alice") };
    assert_eq!(active.metadata(), Metadata { username: Some(String::from("alice")) });
}

#[test]
fn restore_needs_an_attached_name() {
    assert_eq!(Session::restore(None), None);
    assert_eq!(Session::restore(Some(Metadata { username: None })), None);
    assert_eq!(
        Session::restore(Some(Metadata { username: Some(String::from("alice")) })),
        Some(Session::Active { username: String::from("alice") })
    );
}

#[test]
fn restore_undoes_metadata_of_an_active_session() {
    let active = Session::Active { username: String::from("carol") };
    assert_eq!(Session::restore(Some(active.metadata())), Some(active));
}
