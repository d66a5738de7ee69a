//! How sessions come into the table: by admission of a new connection, and
//! by restoration after the room was interrupted.

use super::delivery::is_recipient;
use super::log::replay;
use super::message::MessageView;
use super::session::{Metadata, SessionView};
use super::session_map::{name_conflict, with_session, TableView};
use vstd::prelude::*;

verus! {

/// The notice that tells a newcomer of an active entry.
pub open spec fn welcome() -> spec_fn((u64, SessionView)) -> MessageView {
    |entry: (u64, SessionView)| MessageView::MemberJoined { name: entry.1->username }
}

/// What a connection admitted as `conn` is told of who is there: one notice
/// for each session that is active on another connection, in table order.
pub open spec fn roster(table: TableView, conn: u64) -> Seq<MessageView> {
    table.filter(is_recipient(Some(conn))).map_values(welcome())
}

/// The sessions after `conn` was admitted while the log listed `listed`,
/// newest first: `conn` is preparing, and its queue holds the roster and then
/// the replayed history, oldest first.
pub open spec fn admitted(table: TableView, conn: u64, listed: Seq<MessageView>) -> TableView {
    with_session(
        table,
        conn,
        SessionView::Preparing { queue: roster(table, conn) + replay(listed) },
    )
}

/// The name that an attachment holds, if there is an attachment and it holds
/// one.
pub open spec fn attached_name(attachment: Option<Metadata>) -> Option<Seq<char>> {
    match attachment {
        Some(metadata) => metadata@.username,
        None => None,
    }
}

/// Each live connection with the name that was attached to it.
pub open spec fn attached_names(live: Seq<(u64, Option<Metadata>)>) -> Seq<
    (u64, Option<Seq<char>>),
> {
    live.map_values(|entry: (u64, Option<Metadata>)| (entry.0, attached_name(entry.1)))
}

/// The table with one more connection restored.
///
/// A connection comes back active under the name attached to it. It stays
/// out of the table if nothing was attached, or if another connection
/// already holds that name.
pub open spec fn restored_one(table: TableView, conn: u64, name: Option<Seq<char>>) -> TableView {
    match name {
        Some(username) => if name_conflict(table, conn, SessionView::Active { username }) {
            table
        } else {
            with_session(table, conn, SessionView::Active { username })
        },
        None => table,
    }
}

/// The table restored from the live connections, taken in order.
pub open spec fn restored(live: Seq<(u64, Option<Seq<char>>)>) -> TableView
    decreases live.len(),
{
    if live.len() == 0 {
        Seq::empty()
    } else {
        restored_one(restored(live.drop_last()), live.last().0, live.last().1)
    }
}

} // verus!
