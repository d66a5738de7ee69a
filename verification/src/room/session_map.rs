//! The room's membership registry: one session per connection.

use super::error::RoomError;
use super::message::{views, Message};
use super::session::{Session, SessionView};
use vstd::prelude::*;

verus! {

/// The mathematical value of a [`SessionMap`]: its entries in table order,
/// each a connection with its session.
pub type TableView = Seq<(u64, SessionView)>;

/// No connection has two entries.
pub open spec fn connections_distinct(table: TableView) -> bool {
    forall|i: int, j: int| 0 <= i < j < table.len() ==> table[i].0 != table[j].0
}

/// No two active sessions hold the same name.
pub open spec fn usernames_distinct(table: TableView) -> bool {
    forall|i: int, j: int|
        0 <= i < j < table.len() && table[i].1 is Active && table[j].1 is Active
            ==> table[i].1->username != table[j].1->username
}

/// What every table satisfies at all times.
pub open spec fn well_formed(table: TableView) -> bool {
    connections_distinct(table) && usernames_distinct(table)
}

/// Whether `conn` has an entry.
pub open spec fn holds(table: TableView, conn: u64) -> bool {
    exists|i: int| 0 <= i < table.len() && table[i].0 == conn
}

/// Where the entry of `conn` stands, if it has one.
pub open spec fn position(table: TableView, conn: u64) -> int {
    choose|i: int| 0 <= i < table.len() && table[i].0 == conn
}

/// The session of `conn`, if it has one.
pub open spec fn session_of(table: TableView, conn: u64) -> Option<SessionView> {
    if holds(table, conn) {
        Some(table[position(table, conn)].1)
    } else {
        None
    }
}

/// Whether some active session holds `name`.
pub open spec fn username_in_use(table: TableView, name: Seq<char>) -> bool {
    exists|i: int|
        0 <= i < table.len() && table[i].1 == (SessionView::Active { username: name })
}

/// Whether giving `session` to `conn` would put one name on two connections.
pub open spec fn name_conflict(table: TableView, conn: u64, session: SessionView) -> bool {
    session is Active && exists|i: int|
        0 <= i < table.len() && table[i].0 != conn && table[i].1 == session
}

/// The table in which `conn` has `session`: in the place of its earlier
/// session if it had one, else at the end.
pub open spec fn with_session(table: TableView, conn: u64, session: SessionView) -> TableView {
    if holds(table, conn) {
        table.update(position(table, conn), (conn, session))
    } else {
        table.push((conn, session))
    }
}

/// The table with the entry of `conn` taken out.
pub open spec fn without(table: TableView, conn: u64) -> TableView {
    if holds(table, conn) {
        table.remove(position(table, conn))
    } else {
        table
    }
}

/// Where no connection has two entries, the entry of a connection stands in
/// one place only.
pub proof fn lemma_position(table: TableView, conn: u64, index: int)
    requires
        connections_distinct(table),
        0 <= index < table.len(),
        table[index].0 == conn,
    ensures
        holds(table, conn),
        position(table, conn) == index,
{
    let chosen = position(table, conn);
    assert(0 <= chosen < table.len() && table[chosen].0 == conn);
    if chosen < index {
        assert(table[chosen].0 != table[index].0);
    } else if index < chosen {
        assert(table[index].0 != table[chosen].0);
    }
}

/// The values of a run of entries.
pub open spec fn entry_views(entries: Seq<(u64, Session)>) -> TableView {
    entries.map_values(|e: (u64, Session)| (e.0, e.1@))
}

/// The sessions of one room, keyed by connection.
///
/// Entries keep the order in which their connections were admitted. No
/// connection has two entries and no two active sessions share a name.
pub struct SessionMap {
    entries: Vec<(u64, Session)>,
}

impl View for SessionMap {
    type V = TableView;

    closed spec fn view(&self) -> TableView {
        entry_views(self.entries@)
    }
}

impl SessionMap {
    /// The invariant of the table.
    pub open spec fn wf(&self) -> bool {
        well_formed(self@)
    }

    pub fn new() -> (table: SessionMap)
        ensures
            table@ == Seq::<(u64, SessionView)>::empty(),
            table.wf(),
    {
        let table = SessionMap { entries: Vec::new() };
        assert(table@ =~= Seq::<(u64, SessionView)>::empty());
        table
    }

    /// The number of entries.
    pub fn len(&self) -> (n: usize)
        ensures
            n == self@.len(),
    {
        self.entries.len()
    }

    /// The connection of the entry at `index`.
    pub fn connection_at(&self, index: usize) -> (conn: u64)
        requires
            index < self@.len(),
        ensures
            conn == self@[index as int].0,
    {
        self.entries[index].0
    }

    /// The session of the entry at `index`.
    pub fn session_at(&self, index: usize) -> (session: &Session)
        requires
            index < self@.len(),
        ensures
            session@ == self@[index as int].1,
    {
        &self.entries[index].1
    }

    /// Where the entry of `conn` stands.
    pub fn index_of(&self, conn: u64) -> (found: Option<usize>)
        requires
            self.wf(),
        ensures
            found is Some <==> holds(self@, conn),
            found matches Some(index) ==> index == position(self@, conn),
    {
        let mut index: usize = 0;
        while index < self.entries.len()
            invariant
                self.wf(),
                index <= self.entries.len(),
                forall|j: int| 0 <= j < index ==> self@[j].0 != conn,
            decreases self.entries.len() - index,
        {
            if self.entries[index].0 == conn {
                proof {
                    lemma_position(self@, conn, index as int);
                }
                return Some(index);
            }
            index += 1;
        }
        None
    }

    /// The session of `conn`.
    pub fn get(&self, conn: u64) -> (found: Option<&Session>)
        requires
            self.wf(),
        ensures
            found is Some <==> holds(self@, conn),
            found matches Some(session) ==> Some(session@) == session_of(self@, conn),
    {
        match self.index_of(conn) {
            Some(index) => Some(&self.entries[index].1),
            None => None,
        }
    }

    /// Gives `conn` the session `session`: in the place of its earlier session
    /// if it had one, else as a new last entry.
    ///
    /// An active session whose name another connection holds is refused, and
    /// the table stays as it was.
    pub fn insert(&mut self, conn: u64, session: Session) -> (done: Result<(), RoomError>)
        requires
            old(self).wf(),
        ensures
            final(self).wf(),
            name_conflict(old(self)@, conn, session@) ==> done == Err::<(), RoomError>(
                RoomError::DuplicateIdentity,
            ) && final(self)@ == old(self)@,
            !name_conflict(old(self)@, conn, session@) ==> done is Ok && final(self)@
                == with_session(old(self)@, conn, session@),
    {
        if self.held_by_other(conn, &session) {
            return Err(RoomError::DuplicateIdentity);
        }
        match self.index_of(conn) {
            Some(index) => {
                self.entries[index] = (conn, session);
                assert(self@ =~= old(self)@.update(index as int, (conn, session@)));
            },
            None => {
                self.entries.push((conn, session));
                assert(self@ =~= old(self)@.push((conn, session@)));
            },
        }
        Ok(())
    }

    /// Whether `session` is active under a name that a connection other than
    /// `conn` holds.
    fn held_by_other(&self, conn: u64, session: &Session) -> (conflict: bool)
        ensures
            conflict == name_conflict(self@, conn, session@),
    {
        match session {
            Session::Preparing { .. } => false,
            Session::Active { username } => {
                let mut index: usize = 0;
                while index < self.entries.len()
                    invariant
                        session@ == (SessionView::Active { username: username@ }),
                        index <= self.entries.len(),
                        forall|j: int|
                            0 <= j < index ==> !(self@[j].0 != conn && self@[j].1 == session@),
                    decreases self.entries.len() - index,
                {
                    if self.entries[index].0 != conn {
                        match &self.entries[index].1 {
                            Session::Active { username: other } => {
                                if *other == *username {
                                    assert(self@[index as int].0 != conn && self@[index as int].1
                                        == session@);
                                    return true;
                                }
                            },
                            Session::Preparing { .. } => {},
                        }
                    }
                    index += 1;
                }
                false
            },
        }
    }

    /// Takes the entry of `conn` out of the table and hands back its session.
    pub fn remove(&mut self, conn: u64) -> (removed: Option<Session>)
        requires
            old(self).wf(),
        ensures
            final(self).wf(),
            final(self)@ == without(old(self)@, conn),
            removed is Some <==> holds(old(self)@, conn),
            removed matches Some(session) ==> Some(session@) == session_of(old(self)@, conn),
    {
        match self.index_of(conn) {
            Some(index) => Some(self.remove_at(index).1),
            None => None,
        }
    }

    /// Takes the entry at `index` out of the table.
    pub fn remove_at(&mut self, index: usize) -> (removed: (u64, Session))
        requires
            old(self).wf(),
            index < old(self)@.len(),
        ensures
            final(self).wf(),
            final(self)@ == old(self)@.remove(index as int),
            (removed.0, removed.1@) == old(self)@[index as int],
    {
        let removed = self.entries.remove(index);
        assert(self@ =~= old(self)@.remove(index as int));
        removed
    }

    /// Appends `message` to the queue of the preparing session at `index`.
    pub fn enqueue_at(&mut self, index: usize, message: Message)
        requires
            old(self).wf(),
            index < old(self)@.len(),
            old(self)@[index as int].1 is Preparing,
        ensures
            final(self).wf(),
            final(self)@ == old(self)@.update(
                index as int,
                (old(self)@[index as int].0, old(self)@[index as int].1.enqueued(message@)),
            ),
    {
        let entry = &mut self.entries[index];
        entry.1.enqueue_message(message);
        assert(self@ =~= old(self)@.update(
            index as int,
            (old(self)@[index as int].0, old(self)@[index as int].1.enqueued(message@)),
        ));
    }

    /// Empties the queue of the session at `index` and hands back what it
    /// held, oldest first.
    pub fn take_queue_at(&mut self, index: usize) -> (taken: Vec<Message>)
        requires
            old(self).wf(),
            index < old(self)@.len(),
        ensures
            final(self).wf(),
            views(taken@) == old(self)@[index as int].1.queue(),
            final(self)@ == old(self)@.update(
                index as int,
                (old(self)@[index as int].0, old(self)@[index as int].1.flushed()),
            ),
    {
        let entry = &mut self.entries[index];
        let taken = entry.1.take_queued_messages();
        assert(self@ =~= old(self)@.update(
            index as int,
            (old(self)@[index as int].0, old(self)@[index as int].1.flushed()),
        ));
        taken
    }

    /// Makes the session at `index` active under `name`, which no active
    /// session may hold yet.
    ///
    /// Fails on a session that is already active, and leaves the table as it
    /// was.
    pub fn activate_at(&mut self, index: usize, name: String) -> (done: Result<(), RoomError>)
        requires
            old(self).wf(),
            index < old(self)@.len(),
            !username_in_use(old(self)@, name@),
        ensures
            final(self).wf(),
            old(self)@[index as int].1 is Active ==> done == Err::<(), RoomError>(
                RoomError::InvalidTransition,
            ) && final(self)@ == old(self)@,
            old(self)@[index as int].1 is Preparing ==> done is Ok && final(self)@ == old(
                self,
            )@.update(
                index as int,
                (old(self)@[index as int].0, SessionView::Active { username: name@ }),
            ),
    {
        let entry = &mut self.entries[index];
        let done = entry.1.mark_as_prepared_for(name);
        proof {
            if done is Ok {
                assert(self@ =~= old(self)@.update(
                    index as int,
                    (old(self)@[index as int].0, SessionView::Active { username: name@ }),
                ));
            } else {
                assert(self@ =~= old(self)@);
            }
        }
        done
    }

    /// Whether an active session holds `name`.
    pub fn is_username_in_use(&self, name: &str) -> (used: bool)
        ensures
            used == username_in_use(self@, name@),
    {
        let wanted = name.to_owned();
        let mut index: usize = 0;
        while index < self.entries.len()
            invariant
                wanted@ == name@,
                index <= self.entries.len(),
                forall|j: int|
                    0 <= j < index ==> self@[j].1 != (SessionView::Active { username: name@ }),
            decreases self.entries.len() - index,
        {
            match &self.entries[index].1 {
                Session::Active { username } => {
                    if *username == wanted {
                        assert(self@[index as int].1 == (SessionView::Active { username: name@ }));
                        return true;
                    }
                },
                Session::Preparing { .. } => {},
            }
            index += 1;
        }
        false
    }
}

} // verus!
