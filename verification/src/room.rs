//! The room coordinator: admission, message routing and broadcast fan-out.

pub mod admission;
pub mod delivery;
pub mod error;
pub mod guarantees;
pub mod log;
pub mod message;
pub mod query;
pub mod routing;
pub mod session;
pub mod session_map;

use self::admission::{admitted, attached_names, restored, roster, welcome};
use self::delivery::{
    deliveries_of_all, deliveries_on_close, deliveries_to_active, delivery_views, enqueue,
    enqueue_all, farewell, is_recipient, lemma_deliveries_same_roles, lemma_deliveries_step,
    pass_over, queued_all, queued_on_preparing, quit_notices, quits, sessions_after_close, stays,
    survivors, Delivery, DeliveryView,
};
use self::error::RoomError;
use self::log::{entry_key, replay, HISTORY_LIMIT};
use self::message::{views, Message, MessageView};
use self::query::{query_of, query_pairs_of, room_name_in, room_name_of};
use self::routing::{outcome_of, rejection, sessions_after, Inbound, Outcome};
use self::session::{Metadata, Session, SessionView};
use self::session_map::{holds, well_formed, SessionMap, TableView};
use vstd::prelude::*;

verus! {

/// One chat room: its sessions, and the name it was last asked for under.
pub struct Room {
    name: Option<String>,
    sessions: SessionMap,
}

/// The mathematical value of a [`Room`].
pub struct RoomView {
    pub name: Option<Seq<char>>,
    pub sessions: TableView,
}

impl View for Room {
    type V = RoomView;

    closed spec fn view(&self) -> RoomView {
        RoomView {
            name: match self.name {
                Some(name) => Some(name@),
                None => None,
            },
            sessions: self.sessions@,
        }
    }
}

impl Room {
    /// The invariant of the room: no connection has two sessions, and no two
    /// active sessions hold the same name.
    pub open spec fn wf(&self) -> bool {
        well_formed(self@.sessions)
    }

    /// The room as it stands after an interruption, rebuilt from the
    /// connections that are still live and from what was attached to each.
    ///
    /// A connection comes back active under the name attached to it. One
    /// without an attached name has no identity to resume and stays out of
    /// the table, and so does one whose name an earlier connection of `live`
    /// already holds.
    pub fn new(live: Vec<(u64, Option<Metadata>)>) -> (room: Room)
        ensures
            room.wf(),
            room@.name is None,
            room@.sessions == restored(attached_names(live@)),
    {
        let mut sessions = SessionMap::new();
        let ghost names = attached_names(live@);
        assert(names.take(0) =~= Seq::empty());
        for entry in it: live
            invariant
                names == attached_names(live@),
                sessions.wf(),
                sessions@ == restored(names.take(it.index() as int)),
        {
            let ghost seen: int = it.index() as int;
            assert(names.take(seen + 1).drop_last() =~= names.take(seen));
            let (conn, attachment) = entry;
            if let Some(session) = Session::restore(attachment) {
                // A name that an earlier connection holds stays with that
                // connection: the insert is refused and changes nothing.
                let _ = sessions.insert(conn, session);
            }
        }
        assert(names.take(live@.len() as int) =~= names);
        Room { name: None, sessions }
    }

    /// The name that the room was last asked for under.
    pub fn name(&self) -> (name: Option<&str>)
        ensures
            match name {
                Some(text) => self@.name == Some(text@),
                None => self@.name is None,
            },
    {
        match &self.name {
            Some(name) => Some(name.as_str()),
            None => None,
        }
    }

    /// The sessions of the room.
    pub fn sessions(&self) -> (sessions: &SessionMap)
        ensures
            sessions@ == self@.sessions,
    {
        &self.sessions
    }

    /// Whether `conn` has a session.
    pub fn has_session(&self, conn: u64) -> (found: bool)
        requires
            self.wf(),
        ensures
            found == holds(self@.sessions, conn),
    {
        self.sessions.index_of(conn).is_some()
    }

    /// Takes note of the URL of a connecting request.
    ///
    /// The room is then named as the first `roomname` pair of the URL's query
    /// says, and has no name if the query has no such pair. A text that is no
    /// URL is a fault and changes nothing.
    pub fn fetch(&mut self, url: &str) -> (done: Result<(), RoomError>)
        requires
            old(self).wf(),
        ensures
            final(self).wf(),
            final(self)@.sessions == old(self)@.sessions,
            match query_of(url@) {
                Some(pairs) => done is Ok && final(self)@.name == room_name_in(pairs),
                None => done == Err::<(), RoomError>(RoomError::InvalidUrl) && final(self)@.name
                    == old(self)@.name,
            },
    {
        match query_pairs_of(url) {
            Ok(pairs) => {
                self.name = room_name_of(&pairs);
                Ok(())
            },
            Err(fault) => Err(fault),
        }
    }

    /// Admits the connection `conn`, while the log lists `listed` as its
    /// newest entries, newest first.
    ///
    /// `conn` gets a preparing session. Its queue holds a notice for each
    /// session that is active on another connection, and then the
    /// [`HISTORY_LIMIT`] newest of the listed entries at most, oldest first.
    /// If `conn` had a session before, this one takes its place.
    pub fn register_session(&mut self, conn: u64, listed: Vec<Message>)
        requires
            old(self).wf(),
        ensures
            final(self).wf(),
            final(self)@.name == old(self)@.name,
            final(self)@.sessions == admitted(old(self)@.sessions, conn, views(listed@)),
    {
        let ghost table = self@.sessions;
        let mut session = Session::new();
        let mut index: usize = 0;
        proof {
            reveal(Seq::filter);
            assert(table.take(0) =~= Seq::empty());
            assert(session@.queue() =~= roster(table.take(0), conn));
        }
        while index < self.sessions.len()
            invariant
                self.wf(),
                table == self@.sessions,
                index <= table.len(),
                session@ == (SessionView::Preparing {
                    queue: roster(table.take(index as int), conn),
                }),
            decreases table.len() - index,
        {
            let ghost told = roster(table.take(index as int), conn);
            proof {
                assert(table.take(index + 1) =~= table.take(index as int).push(
                    table[index as int],
                ));
                table.take(index as int).lemma_filter_push(
                    table[index as int],
                    is_recipient(Some(conn)),
                );
            }
            if self.sessions.connection_at(index) != conn {
                match self.sessions.session_at(index).username() {
                    Some(name) => {
                        session.enqueue_message(Message::MemberJoined { name: name.to_owned() });
                        proof {
                            table.take(index as int).filter(
                                is_recipient(Some(conn)),
                            ).lemma_push_map_commute(welcome(), table[index as int]);
                            assert(session@.queue() =~= told.push(
                                welcome()(table[index as int]),
                            ));
                        }
                    },
                    None => {},
                }
            }
            index += 1;
        }
        assert(table.take(index as int) =~= table);

        let mut last_messages = Message::load_last_n(HISTORY_LIMIT, listed);
        let ghost kept = views(last_messages@);
        assert(kept.skip(kept.len() as int) =~= Seq::empty());
        assert(session@.queue() =~= roster(table, conn) + kept.skip(kept.len() as int).reverse());
        while last_messages.len() > 0
            invariant
                last_messages.len() <= kept.len(),
                views(last_messages@) == kept.take(last_messages.len() as int),
                session@ == (SessionView::Preparing {
                    queue: roster(table, conn) + kept.skip(last_messages.len() as int).reverse(),
                }),
            decreases last_messages.len(),
        {
            let ghost left: int = last_messages.len() as int;
            let ghost unread = last_messages@;
            let popped = last_messages.pop();
            let message = popped.unwrap();
            assert(message@ == kept[left - 1]) by {
                assert(views(unread)[left - 1] == kept.take(left)[left - 1]);
            }
            session.enqueue_message(message);
            proof {
                assert(views(last_messages@) =~= kept.take(left - 1));
                assert(kept.skip(left - 1).reverse() =~= kept.skip(left).reverse().push(
                    kept[left - 1],
                ));
                assert(session@.queue() =~= roster(table, conn) + kept.skip(left - 1).reverse());
            }
        }
        assert(kept.skip(0) =~= kept);
        assert(kept.reverse() == replay(views(listed@))) by {
            assert(views(listed@).take(listed@.len() as int) =~= views(listed@));
        }
        let inserted = self.sessions.insert(conn, session);
        assert(inserted is Ok);
    }

    /// Routes one inbound frame from `conn`, which arrived at the time `now`.
    ///
    /// A frame that holds no message, or a message that the sender's state
    /// does not allow, is refused with a reply for the sender alone. A join
    /// request under a free name makes a preparing session active. Chat text
    /// from an active session becomes a record to persist and then to
    /// broadcast. See [`Outcome`] for what is left to the caller.
    ///
    /// A connection that sends a message has a session: the room was told of
    /// it by [`Room::register_session`].
    pub fn websocket_message(&mut self, conn: u64, frame: Inbound, now: u64) -> (outcome: Outcome)
        requires
            old(self).wf(),
            frame@ is Parsed ==> holds(old(self)@.sessions, conn),
        ensures
            final(self).wf(),
            final(self)@.name == old(self)@.name,
            outcome@ == outcome_of(old(self)@.sessions, conn, frame@, now),
            final(self)@.sessions == sessions_after(old(self)@.sessions, conn, frame@, now),
    {
        let message = match frame {
            Inbound::NotText => {
                return reject(RoomError::MalformedMessage, "expected text frame");
            },
            Inbound::Malformed => {
                return reject(RoomError::MalformedMessage, "unexpected format of message");
            },
            Inbound::Parsed(message) => message,
        };
        let found = self.sessions.index_of(conn);
        let index = found.unwrap();
        let ghost before = self@.sessions;
        if self.sessions.session_at(index).is_preparing() {
            let name = match message {
                Message::JoinRequest { name } => name,
                _ => {
                    return reject(RoomError::ProtocolViolation, "expected JoinRequest message");
                },
            };
            if self.sessions.is_username_in_use(name.as_str()) {
                return reject(RoomError::DuplicateIdentity, "username already used");
            }
            let flushed = self.sessions.take_queue_at(index);
            let activated = self.sessions.activate_at(index, name.clone());
            assert(activated is Ok);
            let attachment = self.sessions.session_at(index).metadata();
            let ghost active = self@.sessions;
            let ghost notice = MessageView::MemberJoined { name: name@ };
            let deliveries = self.fan_out(Some(conn), Message::MemberJoined { name });
            proof {
                assert(active =~= before.update(
                    index as int,
                    (conn, SessionView::Active { username: name@ }),
                ));
                lemma_deliveries_same_roles(active, before, Some(conn), notice);
            }
            Outcome::Joined {
                flushed,
                attachment,
                deliveries,
                ready: Message::Ready { ready: true },
            }
        } else {
            let content = match message {
                Message::Text { content } => content,
                _ => {
                    return reject(RoomError::ProtocolViolation, "expected Text message");
                },
            };
            let username = self.sessions.session_at(index).username_or_anonymous().to_owned();
            Outcome::Publish {
                key: entry_key(now),
                record: Message::Broadcast { name: username, content, timestamp: now },
            }
        }
    }

    /// Takes note that the connection `conn` has closed.
    ///
    /// Its session leaves the table. If it was active, its departure notice
    /// is fanned out to the sessions that stay, and the result holds the
    /// deliveries. A connection without a session changes nothing.
    pub fn websocket_close(&mut self, conn: u64) -> (deliveries: Vec<Delivery>)
        requires
            old(self).wf(),
        ensures
            final(self).wf(),
            final(self)@.name == old(self)@.name,
            final(self)@.sessions == sessions_after_close(old(self)@.sessions, conn),
            delivery_views(deliveries@) == deliveries_on_close(old(self)@.sessions, conn),
    {
        match self.sessions.remove(conn) {
            Some(Session::Active { username }) => self.fan_out(
                None,
                Message::MemberQuitted { name: username },
            ),
            _ => {
                let deliveries: Vec<Delivery> = Vec::new();
                assert(delivery_views(deliveries@) =~= Seq::empty());
                deliveries
            },
        }
    }

    /// Fans `message` out to every session.
    ///
    /// It is queued on each preparing session, which gets it when it has
    /// joined. For each active session the result holds one delivery, in
    /// table order. The room does not send: report the deliveries that
    /// failed to [`Room::delivery_failed`].
    pub fn broadcast(&mut self, message: Message) -> (deliveries: Vec<Delivery>)
        requires
            old(self).wf(),
        ensures
            final(self).wf(),
            final(self)@.name == old(self)@.name,
            final(self)@.sessions == queued_on_preparing(old(self)@.sessions, None, message@),
            delivery_views(deliveries@) == deliveries_to_active(
                old(self)@.sessions,
                None,
                message@,
            ),
    {
        self.fan_out(None, message)
    }

    /// Recovers from failed deliveries.
    ///
    /// Every connection among `failed` loses its session. For each of them
    /// that was active, in table order, a departure notice is then fanned out
    /// to the sessions that stay. The result holds the deliveries of those
    /// notices; where some of them fail too, report them here again. A result
    /// that is not empty means that the table has shrunk, so the exchange
    /// ends.
    pub fn delivery_failed(&mut self, failed: &Vec<u64>) -> (deliveries: Vec<Delivery>)
        requires
            old(self).wf(),
        ensures
            final(self).wf(),
            final(self)@.name == old(self)@.name,
            final(self)@.sessions == queued_all(
                survivors(old(self)@.sessions, failed@),
                quit_notices(old(self)@.sessions, failed@),
            ),
            delivery_views(deliveries@) == deliveries_of_all(
                survivors(old(self)@.sessions, failed@),
                quit_notices(old(self)@.sessions, failed@),
            ),
    {
        let notices = self.expel(failed);
        let ghost staying = self@.sessions;
        let mut deliveries: Vec<Delivery> = Vec::new();
        let mut index: usize = 0;
        assert(self@.sessions =~= queued_all(staying, views(notices@).take(0)));
        assert(views(notices@).take(0).map_values(pass_over(staying)) =~= Seq::empty());
        assert(delivery_views(deliveries@) =~= deliveries_of_all(
            staying,
            views(notices@).take(0),
        ));
        while index < notices.len()
            invariant
                self.wf(),
                self@.name == old(self)@.name,
                index <= notices.len(),
                self@.sessions == queued_all(staying, views(notices@).take(index as int)),
                delivery_views(deliveries@) == deliveries_of_all(
                    staying,
                    views(notices@).take(index as int),
                ),
            decreases notices.len() - index,
        {
            let ghost queued = views(notices@).take(index as int);
            let ghost notice = notices@[index as int]@;
            let ghost sent = delivery_views(deliveries@);
            let mut pass = self.fan_out(None, notices[index].clone());
            let ghost added = delivery_views(pass@);
            deliveries.append(&mut pass);
            proof {
                assert(views(notices@).take(index + 1) =~= queued.push(notice));
                lemma_deliveries_same_roles(queued_all(staying, queued), staying, None, notice);
                assert(self@.sessions =~= queued_all(staying, queued.push(notice))) by {
                    assert forall|j: int| 0 <= j < staying.len() implies self@.sessions[j]
                        == enqueue_all(queued.push(notice))(staying[j]) by {
                        assert(staying[j].1.enqueued_all(queued).enqueued(notice).queue()
                            =~= staying[j].1.enqueued_all(queued.push(notice)).queue());
                    }
                }
                assert(queued.push(notice).map_values(pass_over(staying)) =~= queued.map_values(
                    pass_over(staying),
                ).push(added));
                queued.map_values(pass_over(staying)).lemma_flatten_push(added);
                assert(delivery_views(deliveries@) =~= sent + added);
            }
            index += 1;
        }
        assert(views(notices@).take(index as int) =~= views(notices@));
        deliveries
    }

    /// Drops the sessions of the connections `failed`, and makes the
    /// departure notice of each of them that was active, in table order.
    fn expel(&mut self, failed: &Vec<u64>) -> (notices: Vec<Message>)
        requires
            old(self).wf(),
        ensures
            final(self).wf(),
            final(self)@.name == old(self)@.name,
            final(self)@.sessions == survivors(old(self)@.sessions, failed@),
            views(notices@) == quit_notices(old(self)@.sessions, failed@),
    {
        let ghost before = self@.sessions;
        let ghost mut seen: int = 0;
        let mut notices: Vec<Message> = Vec::new();
        let mut index: usize = 0;
        proof {
            reveal(Seq::filter);
            assert(before.take(0) =~= Seq::empty());
            assert(self@.sessions =~= survivors(before.take(0), failed@) + before.skip(0));
            assert(views(notices@) =~= quit_notices(before.take(0), failed@));
        }
        while index < self.sessions.len()
            invariant
                self.wf(),
                self@.name == old(self)@.name,
                before == old(self)@.sessions,
                0 <= seen <= before.len(),
                self@.sessions == survivors(before.take(seen), failed@) + before.skip(seen),
                index == survivors(before.take(seen), failed@).len(),
                views(notices@) == quit_notices(before.take(seen), failed@),
            decreases before.len() - seen,
        {
            let ghost kept = survivors(before.take(seen), failed@);
            let ghost announced = views(notices@);
            let conn = self.sessions.connection_at(index);
            proof {
                assert(self@.sessions[index as int] == before.skip(seen)[0]);
                assert(before.take(seen + 1) =~= before.take(seen).push(before[seen]));
                before.take(seen).lemma_filter_push(before[seen], stays(failed@));
                before.take(seen).lemma_filter_push(before[seen], quits(failed@));
            }
            if is_listed(failed, conn) {
                let removed = self.sessions.remove_at(index);
                match removed.1 {
                    Session::Active { username } => {
                        notices.push(Message::MemberQuitted { name: username });
                        proof {
                            before.take(seen).filter(quits(failed@)).lemma_push_map_commute(
                                farewell(),
                                before[seen],
                            );
                            assert(views(notices@) =~= announced.push(farewell()(before[seen])));
                        }
                    },
                    Session::Preparing { .. } => {},
                }
                assert(self@.sessions =~= kept + before.skip(seen + 1));
            } else {
                index += 1;
                assert(self@.sessions =~= kept.push(before[seen]) + before.skip(seen + 1));
            }
            proof {
                seen = seen + 1;
            }
        }
        assert(before.take(seen) =~= before);
        assert(self@.sessions =~= survivors(before, failed@));
        notices
    }

    /// One fan-out pass of `message` over every session but that of `skip`.
    fn fan_out(&mut self, skip: Option<u64>, message: Message) -> (deliveries: Vec<Delivery>)
        requires
            old(self).wf(),
        ensures
            final(self).wf(),
            final(self)@.name == old(self)@.name,
            final(self)@.sessions == queued_on_preparing(old(self)@.sessions, skip, message@),
            delivery_views(deliveries@) == deliveries_to_active(
                old(self)@.sessions,
                skip,
                message@,
            ),
    {
        let ghost before = self@.sessions;
        let mut deliveries: Vec<Delivery> = Vec::new();
        let mut index: usize = 0;
        assert(before.take(0) =~= Seq::empty());
        assert(delivery_views(deliveries@) =~= deliveries_to_active(
            before.take(0),
            skip,
            message@,
        )) by {
            reveal(Seq::filter);
        }
        while index < self.sessions.len()
            invariant
                self.wf(),
                self@.name == old(self)@.name,
                before == old(self)@.sessions,
                index <= before.len(),
                self@.sessions.len() == before.len(),
                forall|j: int|
                    0 <= j < index ==> self@.sessions[j] == enqueue(skip, message@)(before[j]),
                forall|j: int| index <= j < before.len() ==> self@.sessions[j] == before[j],
                delivery_views(deliveries@) == deliveries_to_active(
                    before.take(index as int),
                    skip,
                    message@,
                ),
            decreases before.len() - index,
        {
            let conn = self.sessions.connection_at(index);
            let skipped = match skip {
                Some(other) => other == conn,
                None => false,
            };
            proof {
                lemma_deliveries_step(before, skip, message@, index as int);
            }
            if !skipped {
                if self.sessions.session_at(index).is_preparing() {
                    self.sessions.enqueue_at(index, message.clone());
                } else {
                    let ghost sent = delivery_views(deliveries@);
                    deliveries.push(Delivery { to: conn, message: message.clone() });
                    assert(delivery_views(deliveries@) =~= sent.push(
                        DeliveryView { to: conn, message: message@ },
                    ));
                }
            }
            index += 1;
        }
        assert(self@.sessions =~= queued_on_preparing(before, skip, message@));
        assert(before.take(index as int) =~= before);
        deliveries
    }
}

/// Refuses a frame for `reason`, with `text` for the sender.
fn reject(reason: RoomError, text: &str) -> (outcome: Outcome)
    ensures
        outcome@ == rejection(reason, text@),
{
    Outcome::Rejected { reason, reply: Message::error(text) }
}

/// Whether `conn` is among `listed`.
fn is_listed(listed: &Vec<u64>, conn: u64) -> (found: bool)
    ensures
        found == listed@.contains(conn),
{
    let mut index: usize = 0;
    while index < listed.len()
        invariant
            index <= listed.len(),
            forall|j: int| 0 <= j < index ==> listed@[j] != conn,
        decreases listed.len() - index,
    {
        if listed[index] == conn {
            return true;
        }
        index += 1;
    }
    false
}

} // verus!
