//! The state of one connection: preparing to join, or active under a name.

use super::error::RoomError;
use super::message::{views, Message, MessageView};
use vstd::prelude::*;

verus! {

/// What a session keeps across an interruption of the room: the name it is
/// active under, if it is active. It travels attached to the connection.
#[derive(Debug, PartialEq, Eq)]
pub struct Metadata {
    pub username: Option<String>,
}

/// The mathematical value of a [`Metadata`].
pub struct MetadataView {
    pub username: Option<Seq<char>>,
}

impl View for Metadata {
    type V = MetadataView;

    open spec fn view(&self) -> MetadataView {
        MetadataView {
            username: match self.username {
                Some(name) => Some(name@),
                None => None,
            },
        }
    }
}

/// The participation state of one connection.
#[derive(Debug, PartialEq, Eq)]
pub enum Session {
    /// No name yet. `queue` holds, oldest first, what the connection will be
    /// sent once it has joined.
    Preparing { queue: Vec<Message> },
    /// Joined under `username`.
    Active { username: String },
}

/// The mathematical value of a [`Session`].
pub enum SessionView {
    Preparing { queue: Seq<MessageView> },
    Active { username: Seq<char> },
}

impl View for Session {
    type V = SessionView;

    open spec fn view(&self) -> SessionView {
        match *self {
            Session::Preparing { queue } => SessionView::Preparing { queue: views(queue@) },
            Session::Active { username } => SessionView::Active { username: username@ },
        }
    }
}

impl SessionView {
    /// The messages waiting for the connection; none once it is active.
    pub open spec fn queue(self) -> Seq<MessageView> {
        match self {
            SessionView::Preparing { queue } => queue,
            SessionView::Active { .. } => Seq::empty(),
        }
    }

    /// The name the session is active under, if it is.
    pub open spec fn username(self) -> Option<Seq<char>> {
        match self {
            SessionView::Preparing { .. } => None,
            SessionView::Active { username } => Some(username),
        }
    }

    /// The session with `messages` appended to its queue, in order; an active
    /// session is left as it is.
    pub open spec fn enqueued_all(self, messages: Seq<MessageView>) -> SessionView {
        match self {
            SessionView::Preparing { queue } => SessionView::Preparing { queue: queue + messages },
            SessionView::Active { .. } => self,
        }
    }

    /// The session with its queue emptied.
    pub open spec fn flushed(self) -> SessionView {
        match self {
            SessionView::Preparing { .. } => SessionView::Preparing { queue: Seq::empty() },
            SessionView::Active { .. } => self,
        }
    }

    /// The session with `message` appended to its queue; an active session is
    /// left as it is.
    pub open spec fn enqueued(self, message: MessageView) -> SessionView {
        match self {
            SessionView::Preparing { queue } => SessionView::Preparing {
                queue: queue.push(message),
            },
            SessionView::Active { .. } => self,
        }
    }
}

impl Session {
    /// A fresh session: preparing, with nothing queued.
    pub fn new() -> (session: Session)
        ensures
            session@ == (SessionView::Preparing { queue: Seq::empty() }),
    {
        let session = Session::Preparing { queue: Vec::new() };
        assert(session@.queue() =~= Seq::empty());
        session
    }

    /// Rebuilds a session from what was attached to its connection.
    ///
    /// Only an attachment that holds a name gives a session, and that session
    /// is active. A connection without one has no identity to resume.
    pub fn restore(attachment: Option<Metadata>) -> (restored: Option<Session>)
        ensures
            restored is Some <==> attachment is Some && attachment->0@.username is Some,
            restored matches Some(session) ==> session@ == (SessionView::Active {
                username: attachment->0@.username->0,
            }),
    {
        match attachment {
            Some(Metadata { username: Some(username) }) => Some(Session::Active { username }),
            _ => None,
        }
    }

    /// The durable snapshot of this session: its name while active, nothing
    /// while preparing.
    pub fn metadata(&self) -> (snapshot: Metadata)
        ensures
            snapshot@.username == self@.username(),
    {
        match self {
            Session::Preparing { .. } => Metadata { username: None },
            Session::Active { username } => Metadata { username: Some(username.clone()) },
        }
    }

    pub fn is_preparing(&self) -> (preparing: bool)
        ensures
            preparing == (self@ is Preparing),
    {
        match self {
            Session::Preparing { .. } => true,
            Session::Active { .. } => false,
        }
    }

    /// The one transition of a session: from preparing to active under
    /// `username`. A session makes it once.
    ///
    /// It fails on a session that is already active, which keeps its name.
    /// What was still queued on a preparing session is dropped: flush the
    /// queue first. Whether `username` is free is for the caller to know.
    pub fn mark_as_prepared_for(&mut self, username: String) -> (done: Result<(), RoomError>)
        ensures
            old(self)@ is Active ==> done == Err::<(), RoomError>(RoomError::InvalidTransition)
                && final(self)@ == old(self)@,
            old(self)@ is Preparing ==> done is Ok && final(self)@ == (SessionView::Active {
                username: username@,
            }),
    {
        if self.is_preparing() {
            *self = Session::Active { username };
            Ok(())
        } else {
            Err(RoomError::InvalidTransition)
        }
    }

    pub fn username(&self) -> (username: Option<&str>)
        ensures
            match username {
                Some(name) => self@.username() == Some(name@),
                None => self@.username() is None,
            },
    {
        match self {
            Session::Preparing { .. } => None,
            Session::Active { username } => Some(username.as_str()),
        }
    }

    pub fn username_or_anonymous(&self) -> (username: &str)
        ensures
            username@ == (match self@.username() {
                Some(name) => name,
                None => "<anonymous>"@,
            }),
    {
        match self {
            Session::Preparing { .. } => "<anonymous>",
            Session::Active { username } => username.as_str(),
        }
    }

    /// Empties the queue and hands back what it held, oldest first.
    pub fn take_queued_messages(&mut self) -> (taken: Vec<Message>)
        ensures
            views(taken@) == old(self)@.queue(),
            final(self)@ == old(self)@.flushed(),
    {
        let mut taken: Vec<Message> = Vec::new();
        match self {
            Session::Preparing { queue } => {
                core::mem::swap(queue, &mut taken);
            },
            Session::Active { .. } => {},
        }
        assert(self@.queue() =~= Seq::empty());
        assert(views(taken@) =~= old(self)@.queue());
        taken
    }

    /// Appends `message` to the queue of a preparing session.
    pub fn enqueue_message(&mut self, message: Message)
        requires
            old(self)@ is Preparing,
        ensures
            final(self)@ == old(self)@.enqueued(message@),
    {
        match self {
            Session::Preparing { queue } => {
                queue.push(message);
            },
            Session::Active { .. } => {},
        }
        assert(self@.queue() =~= old(self)@.queue().push(message@));
    }

    pub fn queued_messages(&self) -> (queued: &[Message])
        ensures
            views(queued@) == self@.queue(),
    {
        match self {
            Session::Preparing { queue } => queue.as_slice(),
            Session::Active { .. } => &[],
        }
    }
}

} // verus!
