//! The events exchanged between participants and the room.

use vstd::prelude::*;

verus! {

/// One wire-level event.
///
/// [`Message::Broadcast`] is the only kind that is ever persisted; every other
/// kind is a transient control message.
#[derive(Debug, PartialEq, Eq)]
pub enum Message {
    /// A client declares the name it wants to chat under.
    JoinRequest { name: String },
    /// The room has processed a join.
    Ready { ready: bool },
    /// A participant became active.
    MemberJoined { name: String },
    /// A participant left.
    MemberQuitted { name: String },
    /// Chat text as a client submits it.
    Text { content: String },
    /// Chat text as the room stores it and fans it out.
    Broadcast { name: String, content: String, timestamp: u64 },
    /// A rejection, sent to the offending connection only.
    Error { message: String },
}

/// The mathematical value of a [`Message`].
pub enum MessageView {
    JoinRequest { name: Seq<char> },
    Ready { ready: bool },
    MemberJoined { name: Seq<char> },
    MemberQuitted { name: Seq<char> },
    Text { content: Seq<char> },
    Broadcast { name: Seq<char>, content: Seq<char>, timestamp: u64 },
    Error { message: Seq<char> },
}

impl View for Message {
    type V = MessageView;

    open spec fn view(&self) -> MessageView {
        match *self {
            Message::JoinRequest { name } => MessageView::JoinRequest { name: name@ },
            Message::Ready { ready } => MessageView::Ready { ready },
            Message::MemberJoined { name } => MessageView::MemberJoined { name: name@ },
            Message::MemberQuitted { name } => MessageView::MemberQuitted { name: name@ },
            Message::Text { content } => MessageView::Text { content: content@ },
            Message::Broadcast { name, content, timestamp } => MessageView::Broadcast {
                name: name@,
                content: content@,
                timestamp,
            },
            Message::Error { message } => MessageView::Error { message: message@ },
        }
    }
}

impl Clone for Message {
    fn clone(&self) -> (copy: Self)
        ensures
            copy@ == self@,
    {
        match self {
            Message::JoinRequest { name } => Message::JoinRequest { name: name.clone() },
            Message::Ready { ready } => Message::Ready { ready: *ready },
            Message::MemberJoined { name } => Message::MemberJoined { name: name.clone() },
            Message::MemberQuitted { name } => Message::MemberQuitted { name: name.clone() },
            Message::Text { content } => Message::Text { content: content.clone() },
            Message::Broadcast { name, content, timestamp } => Message::Broadcast {
                name: name.clone(),
                content: content.clone(),
                timestamp: *timestamp,
            },
            Message::Error { message } => Message::Error { message: message.clone() },
        }
    }
}

/// The values of a run of messages, in order.
pub open spec fn views(messages: Seq<Message>) -> Seq<MessageView> {
    messages.map_values(|m: Message| m@)
}

impl Message {
    /// Builds the rejection that carries `text`.
    pub fn error(text: &str) -> (reply: Message)
        ensures
            reply@ == (MessageView::Error { message: text@ }),
    {
        Message::Error { message: text.to_owned() }
    }

    /// Keeps the first `n` of the entries that the log listed, in the order
    /// in which it listed them.
    pub fn load_last_n(n: usize, listed: Vec<Message>) -> (last_n: Vec<Message>)
        ensures
            views(last_n@) == views(listed@).take(
                if n <= listed.len() {
                    n as int
                } else {
                    listed.len() as int
                },
            ),
    {
        let mut last_n = listed;
        last_n.truncate(n);
        proof {
            if n <= listed.len() {
                assert(views(listed@.subrange(0, n as int)) =~= views(listed@).take(n as int));
            } else {
                assert(views(listed@).take(listed.len() as int) =~= views(listed@));
            }
        }
        last_n
    }
}

} // verus!
