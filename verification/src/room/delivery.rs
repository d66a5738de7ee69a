//! What a broadcast asks the embedding program to send, and to whom.

use super::message::{Message, MessageView};
use super::session::SessionView;
use super::session_map::{session_of, without, TableView};
use vstd::prelude::*;

verus! {

/// One message to send to one connection.
#[derive(Debug, PartialEq, Eq)]
pub struct Delivery {
    pub to: u64,
    pub message: Message,
}

/// The mathematical value of a [`Delivery`].
pub struct DeliveryView {
    pub to: u64,
    pub message: MessageView,
}

impl View for Delivery {
    type V = DeliveryView;

    open spec fn view(&self) -> DeliveryView {
        DeliveryView { to: self.to, message: self.message@ }
    }
}

/// The values of a run of deliveries, in order.
pub open spec fn delivery_views(deliveries: Seq<Delivery>) -> Seq<DeliveryView> {
    deliveries.map_values(|d: Delivery| d@)
}

/// The entries that a fan-out sends to directly: the active ones, but for
/// the connection `skip`.
pub open spec fn is_recipient(skip: Option<u64>) -> spec_fn((u64, SessionView)) -> bool {
    |entry: (u64, SessionView)| entry.1 is Active && Some(entry.0) != skip
}

/// Makes the delivery of `message` to an entry's connection.
pub open spec fn deliver(message: MessageView) -> spec_fn((u64, SessionView)) -> DeliveryView {
    |entry: (u64, SessionView)| DeliveryView { to: entry.0, message }
}

/// Queues `message` on an entry if it is preparing and not `skip`.
pub open spec fn enqueue(skip: Option<u64>, message: MessageView) -> spec_fn(
    (u64, SessionView),
) -> (u64, SessionView) {
    |entry: (u64, SessionView)|
        if Some(entry.0) == skip {
            entry
        } else {
            (entry.0, entry.1.enqueued(message))
        }
}

/// The deliveries of one fan-out of `message`: one to each active session but
/// `skip`, in table order.
pub open spec fn deliveries_to_active(
    table: TableView,
    skip: Option<u64>,
    message: MessageView,
) -> Seq<DeliveryView> {
    table.filter(is_recipient(skip)).map_values(deliver(message))
}

/// The table after one fan-out of `message`: it is queued on each preparing
/// session but `skip`; nothing else changes.
pub open spec fn queued_on_preparing(
    table: TableView,
    skip: Option<u64>,
    message: MessageView,
) -> TableView {
    table.map_values(enqueue(skip, message))
}

/// The entries that stay when the connections `failed` are dropped.
pub open spec fn stays(failed: Seq<u64>) -> spec_fn((u64, SessionView)) -> bool {
    |entry: (u64, SessionView)| !failed.contains(entry.0)
}

/// The entries whose departure is announced when the connections `failed`
/// are dropped: the active ones among them.
pub open spec fn quits(failed: Seq<u64>) -> spec_fn((u64, SessionView)) -> bool {
    |entry: (u64, SessionView)| failed.contains(entry.0) && entry.1 is Active
}

/// The notice that announces the departure of an active entry.
pub open spec fn farewell() -> spec_fn((u64, SessionView)) -> MessageView {
    |entry: (u64, SessionView)| MessageView::MemberQuitted { name: entry.1->username }
}

/// The table without the entries of the connections `failed`.
pub open spec fn survivors(table: TableView, failed: Seq<u64>) -> TableView {
    table.filter(stays(failed))
}

/// One departure notice for each active session among `failed`, in table
/// order.
pub open spec fn quit_notices(table: TableView, failed: Seq<u64>) -> Seq<MessageView> {
    table.filter(quits(failed)).map_values(farewell())
}

/// Queues all of `messages`, in order, on an entry if it is preparing.
pub open spec fn enqueue_all(messages: Seq<MessageView>) -> spec_fn((u64, SessionView)) -> (
    u64,
    SessionView,
) {
    |entry: (u64, SessionView)| (entry.0, entry.1.enqueued_all(messages))
}

/// The table after a fan-out of each of `messages` in turn.
pub open spec fn queued_all(table: TableView, messages: Seq<MessageView>) -> TableView {
    table.map_values(enqueue_all(messages))
}

/// The deliveries of one fan-out of `message` over `table`.
pub open spec fn pass_over(table: TableView) -> spec_fn(MessageView) -> Seq<DeliveryView> {
    |message: MessageView| deliveries_to_active(table, None, message)
}

/// The deliveries of a fan-out of each of `messages` in turn: all those of
/// the first message, then all those of the second, and so on.
pub open spec fn deliveries_of_all(table: TableView, messages: Seq<MessageView>) -> Seq<
    DeliveryView,
> {
    messages.map_values(pass_over(table)).flatten()
}

/// The notice that the closing of `conn` calls for: one only if `conn` was
/// active.
pub open spec fn departure(table: TableView, conn: u64) -> Option<MessageView> {
    match session_of(table, conn) {
        Some(SessionView::Active { username }) => Some(
            MessageView::MemberQuitted { name: username },
        ),
        _ => None,
    }
}

/// The sessions after `conn` has closed: its entry is gone, and the notice
/// of its departure, if there is one, is queued on every preparing session.
pub open spec fn sessions_after_close(table: TableView, conn: u64) -> TableView {
    match departure(table, conn) {
        Some(notice) => queued_on_preparing(without(table, conn), None, notice),
        None => without(table, conn),
    }
}

/// The deliveries that the closing of `conn` calls for: its departure notice,
/// if there is one, to every session that is still active.
pub open spec fn deliveries_on_close(table: TableView, conn: u64) -> Seq<DeliveryView> {
    match departure(table, conn) {
        Some(notice) => deliveries_to_active(without(table, conn), None, notice),
        None => Seq::empty(),
    }
}

/// Who gets a delivery depends only on which connections are recipients, not
/// on what is queued or on the names.
pub proof fn lemma_deliveries_same_roles(
    a: TableView,
    b: TableView,
    skip: Option<u64>,
    message: MessageView,
)
    requires
        a.len() == b.len(),
        forall|i: int|
            0 <= i < a.len() ==> a[i].0 == b[i].0 && (is_recipient(skip)(a[i]) <==> is_recipient(
                skip,
            )(b[i])),
    ensures
        deliveries_to_active(a, skip, message) == deliveries_to_active(b, skip, message),
    decreases a.len(),
{
    if a.len() == 0 {
        assert(a =~= b);
    } else {
        let last: int = a.len() - 1;
        lemma_deliveries_same_roles(a.take(last), b.take(last), skip, message);
        lemma_deliveries_step(a, skip, message, last);
        lemma_deliveries_step(b, skip, message, last);
        assert(a.take(last + 1) =~= a);
        assert(b.take(last + 1) =~= b);
    }
}

/// A fan-out sends to the recipients and to nobody else: every delivery
/// carries the message to a recipient of the table, and every recipient of
/// the table has its delivery.
pub proof fn lemma_deliveries_reach_the_recipients(
    table: TableView,
    skip: Option<u64>,
    message: MessageView,
)
    ensures
        forall|k: int|
            0 <= k < deliveries_to_active(table, skip, message).len() ==> {
                let delivery = #[trigger] deliveries_to_active(table, skip, message)[k];
                &&& delivery.message == message
                &&& exists|j: int|
                    0 <= j < table.len() && is_recipient(skip)(#[trigger] table[j])
                        && table[j].0 == delivery.to
            },
        forall|j: int|
            0 <= j < table.len() && is_recipient(skip)(#[trigger] table[j])
                ==> deliveries_to_active(table, skip, message).contains(
                DeliveryView { to: table[j].0, message },
            ),
{
    let recipients = table.filter(is_recipient(skip));
    let deliveries = deliveries_to_active(table, skip, message);
    assert forall|k: int| 0 <= k < deliveries.len() implies {
        let delivery = #[trigger] deliveries[k];
        &&& delivery.message == message
        &&& exists|j: int|
            0 <= j < table.len() && is_recipient(skip)(#[trigger] table[j]) && table[j].0
                == delivery.to
    } by {
        table.lemma_filter_pred(is_recipient(skip), k);
        assert(recipients.contains(recipients[k]));
        table.lemma_filter_contains_rev(is_recipient(skip), recipients[k]);
        let j = choose|j: int| 0 <= j < table.len() && table[j] == recipients[k];
        assert(is_recipient(skip)(table[j]) && table[j].0 == deliveries[k].to);
    }
    assert forall|j: int|
        0 <= j < table.len() && is_recipient(skip)(#[trigger] table[j]) implies deliveries.contains(
        DeliveryView { to: table[j].0, message },
    ) by {
        table.lemma_filter_contains(is_recipient(skip), j);
        let k = choose|k: int| 0 <= k < recipients.len() && recipients[k] == table[j];
        assert(deliveries[k] == DeliveryView { to: table[j].0, message });
    }
}

/// A fan-out over one more entry adds at most one delivery.
pub proof fn lemma_deliveries_step(
    table: TableView,
    skip: Option<u64>,
    message: MessageView,
    index: int,
)
    requires
        0 <= index < table.len(),
    ensures
        deliveries_to_active(table.take(index + 1), skip, message) == if is_recipient(skip)(
            table[index],
        ) {
            deliveries_to_active(table.take(index), skip, message).push(
                DeliveryView { to: table[index].0, message },
            )
        } else {
            deliveries_to_active(table.take(index), skip, message)
        },
{
    let before = table.take(index);
    assert(table.take(index + 1) =~= before.push(table[index]));
    before.lemma_filter_push(table[index], is_recipient(skip));
    if is_recipient(skip)(table[index]) {
        before.filter(is_recipient(skip)).lemma_push_map_commute(deliver(message), table[index]);
    }
}

} // verus!
