//! What holds of every room, whatever is done to it.
//!
//! Each statement here is proved from the definitions that the contracts of
//! the room's operations are written in.

use super::admission::{admitted, restored, roster};
use super::delivery::{
    deliveries_of_all, deliveries_to_active, departure, is_recipient,
    lemma_deliveries_reach_the_recipients, pass_over, queued_all, queued_on_preparing,
    quit_notices, quits, sessions_after_close, stays, survivors, DeliveryView,
};
use super::error::RoomError;
use super::log::{decimal, newest_first, replay, HISTORY_LIMIT};
use super::message::MessageView;
use super::routing::{joined, outcome_of, rejection, sessions_after, InboundView, OutcomeView};
use super::session::SessionView;
use super::session_map::{
    connections_distinct, holds, lemma_position, name_conflict, position, session_of,
    username_in_use, well_formed, with_session, without, TableView,
};
use vstd::prelude::*;

verus! {

/// Two connections are never active under the same name.
pub proof fn active_names_are_unique(table: TableView, first: u64, second: u64)
    requires
        well_formed(table),
        first != second,
        session_of(table, first) is Some,
        session_of(table, first)->0 is Active,
        session_of(table, second) is Some,
        session_of(table, second)->0 is Active,
    ensures
        session_of(table, first)->0->username != session_of(table, second)->0->username,
{
    let i = position(table, first);
    let j = position(table, second);
    assert(0 <= i < table.len() && table[i].0 == first);
    assert(0 <= j < table.len() && table[j].0 == second);
    if i < j {
        assert(table[i].1->username != table[j].1->username);
    } else {
        assert(table[j].1->username != table[i].1->username);
    }
}

/// Names stay unique whatever happens: each change that the room makes to
/// its sessions takes a well-formed table to a well-formed table.
///
/// This covers restoration, admission, the routing of a frame, a fan-out,
/// the closing of a connection and the recovery from failed deliveries.
pub proof fn every_change_keeps_names_unique(
    table: TableView,
    conn: u64,
    frame: InboundView,
    now: u64,
    listed: Seq<MessageView>,
    message: MessageView,
    failed: Seq<u64>,
    live: Seq<(u64, Option<Seq<char>>)>,
)
    requires
        well_formed(table),
    ensures
        well_formed(restored(live)),
        well_formed(admitted(table, conn, listed)),
        well_formed(sessions_after(table, conn, frame, now)),
        well_formed(queued_on_preparing(table, None, message)),
        well_formed(sessions_after_close(table, conn)),
        well_formed(queued_all(survivors(table, failed), quit_notices(table, failed))),
{
    lemma_restored_is_well_formed(live);
    lemma_with_session_is_well_formed(
        table,
        conn,
        SessionView::Preparing { queue: roster(table, conn) + replay(listed) },
    );
    if sessions_after(table, conn, frame, now) != table {
        let name = frame->Parsed_0->JoinRequest_name;
        let session = SessionView::Active { username: name };
        assert(!name_conflict(table, conn, session)) by {
            if name_conflict(table, conn, session) {
                let i = choose|i: int|
                    0 <= i < table.len() && table[i].0 != conn && table[i].1 == session;
                assert(username_in_use(table, name));
            }
        }
        lemma_with_session_is_well_formed(table, conn, session);
        lemma_queueing_keeps_well_formed(
            with_session(table, conn, session),
            joined(table, conn, name),
        );
    }
    lemma_queueing_keeps_well_formed(table, queued_on_preparing(table, None, message));
    let closed = without(table, conn);
    assert(well_formed(closed)) by {
        if holds(table, conn) {
            let at = position(table, conn);
            assert forall|i: int, j: int| 0 <= i < j < closed.len() implies closed[i].0
                != closed[j].0 && (closed[i].1 is Active && closed[j].1 is Active
                ==> closed[i].1->username != closed[j].1->username) by {
                let before_i = if i < at { i } else { i + 1 };
                let before_j = if j < at { j } else { j + 1 };
                assert(closed[i] == table[before_i] && closed[j] == table[before_j]);
            }
        }
    }
    if departure(table, conn) is Some {
        lemma_queueing_keeps_well_formed(closed, sessions_after_close(table, conn));
    }
    lemma_filter_is_well_formed(table, stays(failed));
    lemma_queueing_keeps_well_formed(
        survivors(table, failed),
        queued_all(survivors(table, failed), quit_notices(table, failed)),
    );
}

/// Chat text from a connection that has not joined is refused: the sender
/// gets an error, nothing is to be persisted or broadcast, and no session
/// changes.
pub proof fn text_before_join_is_refused(table: TableView, conn: u64, content: Seq<char>, now: u64)
    requires
        session_of(table, conn) is Some,
        session_of(table, conn)->0 is Preparing,
    ensures
        ({
            let said = InboundView::Parsed(MessageView::Text { content });
            &&& outcome_of(table, conn, said, now) == rejection(
                RoomError::ProtocolViolation,
                "expected JoinRequest message"@,
            )
            &&& sessions_after(table, conn, said, now) == table
        }),
{
}

/// Whether `conn`, if it has a session in `table`, is still preparing.
pub open spec fn still_preparing(table: TableView, conn: u64) -> bool {
    session_of(table, conn) is Some ==> session_of(table, conn)->0 is Preparing
}

/// A session is preparing until its own connection has joined: no other
/// change that the room makes to its sessions turns a preparing session into
/// an active one. So a connection whose join has not succeeded is in the
/// state in which its chat text is refused.
pub proof fn a_session_is_preparing_until_it_joins(
    table: TableView,
    conn: u64,
    other: u64,
    frame: InboundView,
    now: u64,
    listed: Seq<MessageView>,
    message: MessageView,
    failed: Seq<u64>,
)
    requires
        well_formed(table),
        session_of(table, conn) is Some,
        session_of(table, conn)->0 is Preparing,
    ensures
        still_preparing(admitted(table, other, listed), conn),
        still_preparing(queued_on_preparing(table, None, message), conn),
        still_preparing(sessions_after_close(table, other), conn),
        still_preparing(
            queued_all(survivors(table, failed), quit_notices(table, failed)),
            conn,
        ),
        !(other == conn && outcome_of(table, conn, frame, now) is Joined) ==> still_preparing(
            sessions_after(table, other, frame, now),
            conn,
        ),
{
    let live = Seq::<(u64, Option<Seq<char>>)>::empty();
    every_change_keeps_names_unique(table, other, frame, now, listed, message, failed, live);
    let at = position(table, conn);
    assert(0 <= at < table.len() && table[at].0 == conn);
    assert forall|k: int| 0 <= k < table.len() && table[k].0 == conn implies table[k].1
        is Preparing by {
        lemma_position(table, conn, k);
    }

    let admitted_table = admitted(table, other, listed);
    lemma_entries_decide(admitted_table, conn);

    let queued = queued_on_preparing(table, None, message);
    lemma_entries_decide(queued, conn);

    let closed = without(table, other);
    assert forall|k: int| 0 <= k < closed.len() && closed[k].0 == conn implies closed[k].1
        is Preparing by {
        if holds(table, other) {
            let gone = position(table, other);
            let from = if k < gone { k } else { k + 1 };
            assert(closed[k] == table[from]);
        }
    }
    lemma_entries_decide(sessions_after_close(table, other), conn);

    let staying = survivors(table, failed);
    assert forall|k: int| 0 <= k < staying.len() && staying[k].0 == conn implies staying[k].1
        is Preparing by {
        assert(staying.contains(staying[k]));
        table.lemma_filter_contains_rev(stays(failed), staying[k]);
        let from = choose|from: int| 0 <= from < table.len() && table[from] == staying[k];
        assert(table[from].1 is Preparing);
    }
    lemma_entries_decide(queued_all(staying, quit_notices(table, failed)), conn);

    let routed = sessions_after(table, other, frame, now);
    if routed != table && !(other == conn && outcome_of(table, conn, frame, now) is Joined) {
        assert(other != conn);
        let place = position(table, other);
        assert(0 <= place < table.len() && table[place].0 == other);
        assert forall|k: int| 0 <= k < routed.len() && routed[k].0 == conn implies routed[k].1
            is Preparing by {
            assert(k != place);
            assert(table[k].0 == conn);
        }
        lemma_entries_decide(routed, conn);
    }
}

/// Whether the records of `log` carry timestamps that never step back.
pub open spec fn ascending(log: Seq<MessageView>) -> bool {
    forall|i: int, j: int|
        0 <= i <= j < log.len() && log[i] is Broadcast && log[j] is Broadcast ==> log[i]->timestamp
            <= log[j]->timestamp
}

/// The newest entries of `log`, at most [`HISTORY_LIMIT`] of them, in the
/// order of the log.
pub open spec fn tail(log: Seq<MessageView>) -> Seq<MessageView> {
    if log.len() <= HISTORY_LIMIT {
        log
    } else {
        log.skip(log.len() - HISTORY_LIMIT)
    }
}

/// What is replayed of a log is its tail, in the order of the log: the store
/// lists newest first, and the replay turns that round again. Where the log
/// ascends by timestamp, so does the replay.
pub proof fn replay_is_the_tail_of_the_log(log: Seq<MessageView>)
    ensures
        replay(newest_first(log, HISTORY_LIMIT as nat)) == tail(log),
        tail(log).len() == if log.len() <= HISTORY_LIMIT {
            log.len()
        } else {
            HISTORY_LIMIT as nat
        },
        ascending(log) ==> ascending(tail(log)),
{
    let listed = newest_first(log, HISTORY_LIMIT as nat);
    if HISTORY_LIMIT <= log.len() {
        let newest = log.skip(log.len() - HISTORY_LIMIT);
        assert(listed.take(HISTORY_LIMIT as int) =~= listed);
        assert(newest.reverse().reverse() =~= newest);
        assert(log.skip(0) =~= log);
    } else {
        assert(log.reverse().reverse() =~= log);
    }
}

/// A connection that joins is first sent what it was admitted with, and only
/// then what was broadcast since: the roster, the tail of the log in the
/// order of the log, and after these the later broadcasts `later`.
pub proof fn joiner_receives_the_history_first(
    table: TableView,
    conn: u64,
    log: Seq<MessageView>,
    later: Seq<MessageView>,
    name: Seq<char>,
    now: u64,
)
    requires
        well_formed(table),
        !username_in_use(table, name),
    ensures
        ({
            let at_admission = admitted(table, conn, newest_first(log, HISTORY_LIMIT as nat));
            let at_join = queued_all(at_admission, later);
            let outcome = outcome_of(
                at_join,
                conn,
                InboundView::Parsed(MessageView::JoinRequest { name }),
                now,
            );
            &&& outcome is Joined
            &&& outcome->flushed == roster(table, conn) + tail(log) + later
        }),
{
    replay_is_the_tail_of_the_log(log);
    let queue = roster(table, conn) + tail(log);
    let session = SessionView::Preparing { queue };
    let at_admission = admitted(table, conn, newest_first(log, HISTORY_LIMIT as nat));
    let at_join = queued_all(at_admission, later);
    let place: int = if holds(table, conn) {
        position(table, conn)
    } else {
        table.len() as int
    };
    assert(at_admission[place] == (conn, session));
    assert(at_admission.len() == at_join.len());
    assert(at_join[place] == (conn, session.enqueued_all(later)));
    assert(connections_distinct(at_join)) by {
        assert forall|i: int, j: int| 0 <= i < j < at_join.len() implies at_join[i].0
            != at_join[j].0 by {
            assert(at_join[i].0 == at_admission[i].0);
            assert(at_join[j].0 == at_admission[j].0);
            if holds(table, conn) {
                assert(at_admission[i].0 == table[i].0);
                assert(at_admission[j].0 == table[j].0);
            } else if j < table.len() {
                assert(at_admission[i].0 == table[i].0);
                assert(at_admission[j].0 == table[j].0);
            } else {
                assert(at_admission[i].0 == table[i].0);
            }
        }
    }
    lemma_position(at_join, conn, place);
    assert(!username_in_use(at_join, name)) by {
        if username_in_use(at_join, name) {
            let i = choose|i: int|
                0 <= i < at_join.len() && at_join[i].1 == (SessionView::Active { username: name });
            assert(at_admission[i].1 == (SessionView::Active { username: name }));
            assert(i != place);
            assert(table[i].1 == (SessionView::Active { username: name }));
        }
    }
}

/// Chat text from an active participant becomes a record under its name and
/// the current time, and a broadcast of that record reaches every active
/// session, that of each other participant among them. With a clock that has
/// not stepped back behind the log, no record of the log is newer.
pub proof fn text_reaches_every_active_session(
    table: TableView,
    sender: u64,
    content: Seq<char>,
    now: u64,
    log: Seq<MessageView>,
    other: u64,
)
    requires
        well_formed(table),
        session_of(table, sender) is Some,
        session_of(table, sender)->0 is Active,
        session_of(table, other) is Some,
        session_of(table, other)->0 is Active,
        forall|i: int| 0 <= i < log.len() && log[i] is Broadcast ==> log[i]->timestamp <= now,
    ensures
        ({
            let said = InboundView::Parsed(MessageView::Text { content });
            let record = MessageView::Broadcast {
                name: session_of(table, sender)->0->username,
                content,
                timestamp: now,
            };
            &&& outcome_of(table, sender, said, now) == (OutcomeView::Publish {
                key: decimal(now as nat),
                record,
            })
            &&& sessions_after(table, sender, said, now) == table
            &&& deliveries_to_active(table, None, record).contains(
                DeliveryView { to: other, message: record },
            )
            &&& forall|i: int|
                0 <= i < log.len() && log[i] is Broadcast ==> log[i]->timestamp
                    <= record->timestamp
        }),
{
    let record = MessageView::Broadcast {
        name: session_of(table, sender)->0->username,
        content,
        timestamp: now,
    };
    let j = position(table, other);
    assert(0 <= j < table.len() && table[j].0 == other);
    assert(is_recipient(None)(table[j]));
    lemma_deliveries_reach_the_recipients(table, None, record);
}

/// Whether `failed` is the report of a pass in which exactly the deliveries
/// to the connections in `unreachable` failed.
pub open spec fn reports(failed: Seq<u64>, pass: Seq<DeliveryView>, unreachable: Set<u64>) -> bool {
    forall|conn: u64|
        #[trigger] failed.contains(conn) <==> unreachable.contains(conn) && exists|k: int|
            0 <= k < pass.len() && (#[trigger] pass[k]).to == conn
}

/// The sessions that a broadcast loses: the active ones on connections in
/// `unreachable`.
pub open spec fn is_lost(unreachable: Set<u64>) -> spec_fn((u64, SessionView)) -> bool {
    |entry: (u64, SessionView)| entry.1 is Active && unreachable.contains(entry.0)
}

/// The sessions that a broadcast does not lose.
pub open spec fn is_kept(unreachable: Set<u64>) -> spec_fn((u64, SessionView)) -> bool {
    |entry: (u64, SessionView)| !is_lost(unreachable)(entry)
}

/// A broadcast into a room where some active sessions cannot be reached ends
/// after one round of recovery.
///
/// Say the deliveries of the broadcast fail for exactly the connections in
/// `unreachable`, and `failed` reports that. The recovery then removes the
/// active sessions on those connections and no other, and issues one
/// departure notice for each. Every delivery of those notices goes to a
/// connection that can be reached, so there is nothing more to report.
pub proof fn cascade_removes_exactly_the_unreachable(
    table: TableView,
    message: MessageView,
    unreachable: Set<u64>,
    failed: Seq<u64>,
)
    requires
        well_formed(table),
        reports(failed, deliveries_to_active(table, None, message), unreachable),
    ensures
        ({
            let after_broadcast = queued_on_preparing(table, None, message);
            let staying = survivors(after_broadcast, failed);
            let notices = quit_notices(after_broadcast, failed);
            let second_pass = deliveries_of_all(staying, notices);
            let lost = table.filter(is_lost(unreachable));
            &&& staying == after_broadcast.filter(is_kept(unreachable))
            &&& staying.len() + lost.len() == table.len()
            &&& notices.len() == lost.len()
            &&& forall|k: int|
                0 <= k < second_pass.len() ==> !unreachable.contains((#[trigger] second_pass[k]).to)
        }),
{
    let first_pass = deliveries_to_active(table, None, message);
    let after_broadcast = queued_on_preparing(table, None, message);
    let staying = survivors(after_broadcast, failed);
    let notices = quit_notices(after_broadcast, failed);
    let second_pass = deliveries_of_all(staying, notices);
    let not_lost = is_kept(unreachable);

    lemma_deliveries_reach_the_recipients(table, None, message);
    assert forall|i: int| 0 <= i < table.len() implies failed.contains(after_broadcast[i].0)
        == is_lost(unreachable)(#[trigger] table[i]) by {
        let conn = table[i].0;
        if is_lost(unreachable)(table[i]) {
            assert(is_recipient(None)(table[i]));
            let delivery = DeliveryView { to: conn, message };
            assert(first_pass.contains(delivery));
            let k = choose|k: int| 0 <= k < first_pass.len() && first_pass[k] == delivery;
            assert(first_pass[k].to == conn);
        }
        if failed.contains(conn) {
            let k = choose|k: int|
                0 <= k < first_pass.len() && (#[trigger] first_pass[k]).to == conn;
            let j = choose|j: int|
                0 <= j < table.len() && is_recipient(None)(#[trigger] table[j]) && table[j].0
                    == first_pass[k].to;
            if j < i {
                assert(table[j].0 != table[i].0);
            } else if i < j {
                assert(table[i].0 != table[j].0);
            }
        }
    }
    lemma_filter_agrees(after_broadcast, stays(failed), not_lost);
    lemma_filter_len_related(after_broadcast, table, stays(failed), not_lost);
    lemma_filter_len_related(after_broadcast, table, quits(failed), is_lost(unreachable));
    lemma_filter_len_split(table, is_lost(unreachable), not_lost);

    assert forall|i: int| 0 <= i < staying.len() implies !is_lost(unreachable)(
        #[trigger] staying[i],
    ) by {
        after_broadcast.lemma_filter_pred(stays(failed), i);
        assert(staying.contains(staying[i]));
        after_broadcast.lemma_filter_contains_rev(stays(failed), staying[i]);
        let j = choose|j: int| 0 <= j < after_broadcast.len() && after_broadcast[j] == staying[i];
        assert(failed.contains(after_broadcast[j].0) == is_lost(unreachable)(table[j]));
    }
    assert forall|k: int| 0 <= k < second_pass.len() implies !unreachable.contains(
        (#[trigger] second_pass[k]).to,
    ) by {
        let passes = notices.map_values(pass_over(staying));
        lemma_flatten_index(passes, k);
        let (n, d) = choose|n: int, d: int|
            0 <= n < passes.len() && 0 <= d < passes[n].len() && passes[n][d]
                == passes.flatten()[k];
        lemma_deliveries_reach_the_recipients(staying, None, notices[n]);
        let delivery = deliveries_to_active(staying, None, notices[n])[d];
        let i = choose|i: int|
            0 <= i < staying.len() && is_recipient(None)(#[trigger] staying[i]) && staying[i].0
                == delivery.to;
        assert(!is_lost(unreachable)(staying[i]));
    }
}

/// Every departure notice costs a session, so a recovery that leaves
/// anything to deliver has made the table smaller: the exchange of passes
/// and reports cannot go on for ever. An empty report changes nothing and
/// leaves nothing to deliver.
pub proof fn recovery_shrinks_the_table(table: TableView, failed: Seq<u64>)
    ensures
        survivors(table, failed).len() + quit_notices(table, failed).len() <= table.len(),
        deliveries_of_all(survivors(table, failed), quit_notices(table, failed)).len() > 0
            ==> survivors(table, failed).len() < table.len(),
        failed.len() == 0 ==> survivors(table, failed) == table && quit_notices(table, failed).len()
            == 0 && deliveries_of_all(survivors(table, failed), quit_notices(table, failed)).len()
            == 0,
{
    lemma_filter_len_disjoint(table, stays(failed), quits(failed));
    if failed.len() == 0 {
        lemma_filter_keeps_all(table, stays(failed));
        table.lemma_all_neg_filter_empty(quits(failed));
    }
}

/// The number of active sessions of a table.
pub open spec fn active_count(table: TableView) -> nat {
    table.filter(is_recipient(None)).len()
}

/// The table after the recovery from the failures that `failed` reports.
pub open spec fn recovered(table: TableView, failed: Seq<u64>) -> TableView {
    queued_all(survivors(table, failed), quit_notices(table, failed))
}

/// The table after the recovery from each report of `reports` in turn.
pub open spec fn recovered_from_all(table: TableView, reports: Seq<Seq<u64>>) -> TableView
    decreases reports.len(),
{
    if reports.len() == 0 {
        table
    } else {
        recovered(recovered_from_all(table, reports.drop_last()), reports.last())
    }
}

/// How many departure notices the recoveries from `reports` issue in all.
pub open spec fn notices_in_all(table: TableView, reports: Seq<Seq<u64>>) -> nat
    decreases reports.len(),
{
    if reports.len() == 0 {
        0
    } else {
        notices_in_all(table, reports.drop_last()) + quit_notices(
            recovered_from_all(table, reports.drop_last()),
            reports.last(),
        ).len()
    }
}

/// How many of the recoveries from `reports` leave anything to deliver, and
/// so call for a further pass.
pub open spec fn further_passes(table: TableView, reports: Seq<Seq<u64>>) -> nat
    decreases reports.len(),
{
    if reports.len() == 0 {
        0
    } else {
        let before = recovered_from_all(table, reports.drop_last());
        let pass = deliveries_of_all(
            survivors(before, reports.last()),
            quit_notices(before, reports.last()),
        );
        further_passes(table, reports.drop_last()) + if pass.len() > 0 {
            1nat
        } else {
            0nat
        }
    }
}

/// A cascade ends, whatever fails and whenever: each departure notice costs
/// the room one active session.
///
/// Take any run of reports, each recovered from in turn. The notices issued
/// in all are as many as the active sessions that the room has lost. The
/// recoveries that call for a further pass are no more than those notices. So
/// a broadcast into a room with `K` active sessions is over after `1 + K`
/// passes at most, and issues `K` notices at most.
pub proof fn a_cascade_is_bounded_by_the_active_sessions(
    table: TableView,
    reports: Seq<Seq<u64>>,
)
    ensures
        active_count(recovered_from_all(table, reports)) + notices_in_all(table, reports)
            == active_count(table),
        further_passes(table, reports) <= notices_in_all(table, reports),
        notices_in_all(table, reports) <= active_count(table),
    decreases reports.len(),
{
    if reports.len() > 0 {
        let earlier = reports.drop_last();
        let failed = reports.last();
        a_cascade_is_bounded_by_the_active_sessions(table, earlier);
        let before = recovered_from_all(table, earlier);
        lemma_notice_costs_an_active_session(before, failed);
        let notices = quit_notices(before, failed);
        if notices.len() == 0 {
            assert(notices.map_values(pass_over(survivors(before, failed))) =~= Seq::empty());
        }
    }
}

/// One recovery issues as many notices as it removes active sessions.
proof fn lemma_notice_costs_an_active_session(table: TableView, failed: Seq<u64>)
    ensures
        active_count(recovered(table, failed)) + quit_notices(table, failed).len()
            == active_count(table),
{
    let staying = survivors(table, failed);
    let active = is_recipient(None);
    let stays_active = |entry: (u64, SessionView)| stays(failed)(entry) && active(entry);
    lemma_filter_len_related(recovered(table, failed), staying, active, active);
    lemma_filter_twice(table, stays(failed), active, stays_active);
    lemma_filter_len_split(table.filter(active), stays(failed), quits(failed));
    lemma_filter_twice(table, active, stays(failed), stays_active);
    lemma_filter_twice(table, active, quits(failed), quits(failed));
}

/// Filtering by one predicate and then by another keeps as many elements as
/// filtering by both at once.
proof fn lemma_filter_twice<A>(
    s: Seq<A>,
    p: spec_fn(A) -> bool,
    q: spec_fn(A) -> bool,
    both: spec_fn(A) -> bool,
)
    requires
        forall|i: int| 0 <= i < s.len() ==> both(s[i]) == (p(s[i]) && q(s[i])),
    ensures
        s.filter(p).filter(q).len() == s.filter(both).len(),
    decreases s.len(),
{
    reveal(Seq::filter);
    if s.len() > 0 {
        lemma_filter_twice(s.drop_last(), p, q, both);
        if p(s.last()) {
            s.drop_last().filter(p).lemma_filter_push(s.last(), q);
        }
    }
}

/// A table that differs from a well-formed one only in what is queued is
/// well-formed too.
proof fn lemma_queueing_keeps_well_formed(before: TableView, after: TableView)
    requires
        well_formed(before),
        before.len() == after.len(),
        forall|i: int|
            0 <= i < before.len() ==> before[i].0 == after[i].0 && before[i].1.username()
                == after[i].1.username(),
    ensures
        well_formed(after),
{
    assert forall|i: int, j: int| 0 <= i < j < after.len() implies after[i].0 != after[j].0 && (
    after[i].1 is Active && after[j].1 is Active ==> after[i].1->username
        != after[j].1->username) by {
        assert(before[i].0 != before[j].0);
        assert(before[i].1.username() == after[i].1.username());
        assert(before[j].1.username() == after[j].1.username());
    }
}

/// A session whose name no other connection holds can take its place in a
/// well-formed table.
proof fn lemma_with_session_is_well_formed(table: TableView, conn: u64, session: SessionView)
    requires
        well_formed(table),
        !name_conflict(table, conn, session),
    ensures
        well_formed(with_session(table, conn, session)),
{
    let after = with_session(table, conn, session);
    let at: int = if holds(table, conn) {
        position(table, conn)
    } else {
        table.len() as int
    };
    assert forall|i: int, j: int| 0 <= i < j < after.len() implies after[i].0 != after[j].0 && (
    after[i].1 is Active && after[j].1 is Active ==> after[i].1->username
        != after[j].1->username) by {
        if i != at && j != at {
            assert(after[i] == table[i] && after[j] == table[j]);
        } else if i == at {
            assert(after[j] == table[j]);
            if holds(table, conn) {
                assert(table[i].0 != table[j].0);
            }
            if session is Active {
                assert(!(table[j].0 != conn && table[j].1 == session));
            }
        } else {
            assert(after[i] == table[i]);
            if holds(table, conn) {
                assert(table[i].0 != table[j].0);
            } else {
                assert(!(0 <= i < table.len() && table[i].0 == conn));
            }
            if session is Active {
                assert(!(table[i].0 != conn && table[i].1 == session));
            }
        }
    }
}

/// The entries that a filter keeps of a well-formed table form a
/// well-formed table.
proof fn lemma_filter_is_well_formed(table: TableView, keep: spec_fn((u64, SessionView)) -> bool)
    requires
        well_formed(table),
    ensures
        well_formed(table.filter(keep)),
    decreases table.len(),
{
    reveal(Seq::filter);
    if table.len() > 0 {
        let rest = table.drop_last();
        let kept = rest.filter(keep);
        lemma_filter_is_well_formed(rest, keep);
        if keep(table.last()) {
            let after = kept.push(table.last());
            assert forall|i: int, j: int| 0 <= i < j < after.len() implies after[i].0
                != after[j].0 && (after[i].1 is Active && after[j].1 is Active
                ==> after[i].1->username != after[j].1->username) by {
                if j == kept.len() {
                    assert(kept.contains(kept[i]));
                    rest.lemma_filter_contains_rev(keep, kept[i]);
                    let k = choose|k: int| 0 <= k < rest.len() && rest[k] == kept[i];
                    assert(table[k] == kept[i]);
                    assert(table[k].0 != table[table.len() - 1].0);
                }
            }
        }
    }
}

/// Restoration gives a well-formed table.
proof fn lemma_restored_is_well_formed(live: Seq<(u64, Option<Seq<char>>)>)
    ensures
        well_formed(restored(live)),
    decreases live.len(),
{
    if live.len() > 0 {
        lemma_restored_is_well_formed(live.drop_last());
        let table = restored(live.drop_last());
        match live.last().1 {
            Some(username) => {
                let session = SessionView::Active { username };
                if !name_conflict(table, live.last().0, session) {
                    lemma_with_session_is_well_formed(table, live.last().0, session);
                }
            },
            None => {},
        }
    }
}

/// In a well-formed table, what holds of every entry of a connection holds
/// of its session.
proof fn lemma_entries_decide(table: TableView, conn: u64)
    requires
        well_formed(table),
        forall|k: int| 0 <= k < table.len() && table[k].0 == conn ==> table[k].1 is Preparing,
    ensures
        still_preparing(table, conn),
{
    if holds(table, conn) {
        let at = position(table, conn);
        assert(0 <= at < table.len() && table[at].0 == conn);
    }
}

/// Two predicates that agree on every element of a sequence filter it alike.
proof fn lemma_filter_agrees<A>(s: Seq<A>, p: spec_fn(A) -> bool, q: spec_fn(A) -> bool)
    requires
        forall|i: int| 0 <= i < s.len() ==> p(s[i]) == q(s[i]),
    ensures
        s.filter(p) == s.filter(q),
    decreases s.len(),
{
    reveal(Seq::filter);
    if s.len() > 0 {
        lemma_filter_agrees(s.drop_last(), p, q);
    }
}

/// Two sequences that agree place by place on a predicate have as many
/// elements that meet it.
proof fn lemma_filter_len_related<A, B>(
    s: Seq<A>,
    t: Seq<B>,
    p: spec_fn(A) -> bool,
    q: spec_fn(B) -> bool,
)
    requires
        s.len() == t.len(),
        forall|i: int| 0 <= i < s.len() ==> p(s[i]) == q(t[i]),
    ensures
        s.filter(p).len() == t.filter(q).len(),
    decreases s.len(),
{
    reveal(Seq::filter);
    if s.len() > 0 {
        lemma_filter_len_related(s.drop_last(), t.drop_last(), p, q);
    }
}

/// A predicate and its opposite split a sequence in two.
proof fn lemma_filter_len_split<A>(s: Seq<A>, p: spec_fn(A) -> bool, q: spec_fn(A) -> bool)
    requires
        forall|i: int| 0 <= i < s.len() ==> p(s[i]) != q(s[i]),
    ensures
        s.filter(p).len() + s.filter(q).len() == s.len(),
    decreases s.len(),
{
    reveal(Seq::filter);
    if s.len() > 0 {
        lemma_filter_len_split(s.drop_last(), p, q);
    }
}

/// Two predicates that no element meets together pick no more than there is.
proof fn lemma_filter_len_disjoint<A>(s: Seq<A>, p: spec_fn(A) -> bool, q: spec_fn(A) -> bool)
    requires
        forall|i: int| 0 <= i < s.len() ==> !(p(s[i]) && q(s[i])),
    ensures
        s.filter(p).len() + s.filter(q).len() <= s.len(),
    decreases s.len(),
{
    reveal(Seq::filter);
    if s.len() > 0 {
        lemma_filter_len_disjoint(s.drop_last(), p, q);
    }
}

/// A predicate that every element meets filters nothing out.
proof fn lemma_filter_keeps_all<A>(s: Seq<A>, p: spec_fn(A) -> bool)
    requires
        forall|i: int| 0 <= i < s.len() ==> p(s[i]),
    ensures
        s.filter(p) == s,
    decreases s.len(),
{
    reveal(Seq::filter);
    if s.len() > 0 {
        lemma_filter_keeps_all(s.drop_last(), p);
        assert(s.drop_last().push(s.last()) =~= s);
    }
}

/// Each element of a flattened sequence stands in one of its parts.
proof fn lemma_flatten_index<A>(parts: Seq<Seq<A>>, k: int)
    requires
        0 <= k < parts.flatten().len(),
    ensures
        exists|n: int, d: int|
            0 <= n < parts.len() && 0 <= d < parts[n].len() && #[trigger] parts[n][d]
                == parts.flatten()[k],
    decreases parts.len(),
{
    if parts.len() > 0 {
        if k < parts.first().len() {
            assert(parts[0][k] == parts.flatten()[k]);
        } else {
            let rest = parts.drop_first();
            let shifted: int = k - parts.first().len();
            lemma_flatten_index(rest, shifted);
            let (n, d) = choose|n: int, d: int|
                0 <= n < rest.len() && 0 <= d < rest[n].len() && #[trigger] rest[n][d]
                    == rest.flatten()[shifted];
            assert(parts[n + 1][d] == parts.flatten()[k]);
        }
    }
}

} // verus!
