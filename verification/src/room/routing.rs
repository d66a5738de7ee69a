//! What comes in from a connection, and what the room decides on it.

use super::delivery::{
    deliveries_to_active, delivery_views, queued_on_preparing, Delivery, DeliveryView,
};
use super::error::RoomError;
use super::log::decimal;
use super::message::{views, Message, MessageView};
use super::session::{Metadata, MetadataView, SessionView};
use super::session_map::{position, session_of, username_in_use, TableView};
use vstd::prelude::*;

verus! {

/// One frame as it arrived from a connection, after the attempt to parse it.
#[derive(Debug, PartialEq, Eq)]
pub enum Inbound {
    /// The frame held no text.
    NotText,
    /// The frame held text that is no message.
    Malformed,
    /// The frame held this message.
    Parsed(Message),
}

/// The mathematical value of an [`Inbound`].
pub enum InboundView {
    NotText,
    Malformed,
    Parsed(MessageView),
}

impl View for Inbound {
    type V = InboundView;

    open spec fn view(&self) -> InboundView {
        match *self {
            Inbound::NotText => InboundView::NotText,
            Inbound::Malformed => InboundView::Malformed,
            Inbound::Parsed(message) => InboundView::Parsed(message@),
        }
    }
}

/// What the room decided on one inbound frame. [`Outcome::into_commands`]
/// lists, in order, what that leaves to do for the embedding program.
#[derive(Debug, PartialEq, Eq)]
pub enum Outcome {
    /// The frame was refused and nothing changed. Send `reply` to the sender,
    /// and to nobody else.
    Rejected { reason: RoomError, reply: Message },
    /// The sender has joined and is active now. It is owed `flushed`, what
    /// was queued for it, and then `ready`. Its connection is to carry
    /// `attachment`, and `deliveries` tell the others.
    Joined {
        flushed: Vec<Message>,
        attachment: Metadata,
        deliveries: Vec<Delivery>,
        ready: Message,
    },
    /// The sender's text became `record`. Append it to the log under `key`.
    /// Only when that has succeeded, broadcast `record`; when it has failed,
    /// the event has failed and nothing is broadcast.
    Publish { key: String, record: Message },
}

/// The mathematical value of an [`Outcome`].
pub enum OutcomeView {
    Rejected { reason: RoomError, reply: MessageView },
    Joined {
        flushed: Seq<MessageView>,
        attachment: MetadataView,
        deliveries: Seq<DeliveryView>,
        ready: MessageView,
    },
    Publish { key: Seq<char>, record: MessageView },
}

impl View for Outcome {
    type V = OutcomeView;

    open spec fn view(&self) -> OutcomeView {
        match *self {
            Outcome::Rejected { reason, reply } => OutcomeView::Rejected { reason, reply: reply@ },
            Outcome::Joined { flushed, attachment, deliveries, ready } => OutcomeView::Joined {
                flushed: views(flushed@),
                attachment: attachment@,
                deliveries: delivery_views(deliveries@),
                ready: ready@,
            },
            Outcome::Publish { key, record } => OutcomeView::Publish { key: key@, record: record@ },
        }
    }
}

/// One thing that an outcome leaves to the embedding program.
#[derive(Debug, PartialEq, Eq)]
pub enum Command {
    /// Send `message` to the connection `to`.
    Send { to: u64, message: Message },
    /// Attach `metadata` to the connection `to`, in place of what was
    /// attached to it before.
    Attach { to: u64, metadata: Metadata },
    /// Append `record` to the log under `key`, and broadcast it when that has
    /// succeeded.
    Persist { key: String, record: Message },
}

/// The mathematical value of a [`Command`].
pub enum CommandView {
    Send { to: u64, message: MessageView },
    Attach { to: u64, metadata: MetadataView },
    Persist { key: Seq<char>, record: MessageView },
}

impl View for Command {
    type V = CommandView;

    open spec fn view(&self) -> CommandView {
        match *self {
            Command::Send { to, message } => CommandView::Send { to, message: message@ },
            Command::Attach { to, metadata } => CommandView::Attach { to, metadata: metadata@ },
            Command::Persist { key, record } => CommandView::Persist { key: key@, record: record@ },
        }
    }
}

/// The values of a run of commands, in order.
pub open spec fn command_views(commands: Seq<Command>) -> Seq<CommandView> {
    commands.map_values(|c: Command| c@)
}

/// Makes the command that sends a message to `to`.
pub open spec fn send_to(to: u64) -> spec_fn(MessageView) -> CommandView {
    |message: MessageView| CommandView::Send { to, message }
}

/// Makes the command that performs a delivery.
pub open spec fn perform() -> spec_fn(DeliveryView) -> CommandView {
    |delivery: DeliveryView| CommandView::Send { to: delivery.to, message: delivery.message }
}

/// What `outcome`, decided on a frame from `sender`, leaves to do, in the
/// order in which it is to be done.
///
/// A sender that has joined is first sent what was queued for it, oldest
/// first. Its name is attached to its connection, the others are told, and
/// last of all it is sent the acknowledgement.
pub open spec fn commands_of(outcome: OutcomeView, sender: u64) -> Seq<CommandView> {
    match outcome {
        OutcomeView::Rejected { reply, .. } => seq![
            CommandView::Send { to: sender, message: reply },
        ],
        OutcomeView::Joined { flushed, attachment, deliveries, ready } => flushed.map_values(
            send_to(sender),
        ) + seq![CommandView::Attach { to: sender, metadata: attachment }] + deliveries.map_values(
            perform(),
        ) + seq![CommandView::Send { to: sender, message: ready }],
        OutcomeView::Publish { key, record } => seq![CommandView::Persist { key, record }],
    }
}

impl Outcome {
    /// Lists what this outcome, decided on a frame from `sender`, leaves to
    /// do, in the order in which it is to be done.
    pub fn into_commands(self, sender: u64) -> (commands: Vec<Command>)
        ensures
            command_views(commands@) == commands_of(self@, sender),
    {
        let mut commands: Vec<Command> = Vec::new();
        match self {
            Outcome::Rejected { reply, .. } => {
                commands.push(Command::Send { to: sender, message: reply });
                assert(command_views(commands@) =~= commands_of(self@, sender));
            },
            Outcome::Joined { flushed, attachment, deliveries, ready } => {
                let ghost queued = views(flushed@).map_values(send_to(sender));
                let ghost told = delivery_views(deliveries@).map_values(perform());
                let ghost attach = CommandView::Attach { to: sender, metadata: attachment@ };
                assert(command_views(commands@) =~= queued.take(0));
                for message in it: flushed
                    invariant
                        queued == views(flushed@).map_values(send_to(sender)),
                        command_views(commands@) == queued.take(it.index() as int),
                {
                    let ghost sent = command_views(commands@);
                    commands.push(Command::Send { to: sender, message });
                    assert(command_views(commands@) =~= sent.push(queued[it.index() as int]));
                    assert(queued.take(it.index() + 1) =~= sent.push(queued[it.index() as int]));
                }
                assert(queued.take(flushed@.len() as int) =~= queued);
                commands.push(Command::Attach { to: sender, metadata: attachment });
                assert(command_views(commands@) =~= queued + seq![attach] + told.take(0));
                for delivery in it: deliveries
                    invariant
                        told == delivery_views(deliveries@).map_values(perform()),
                        command_views(commands@) == queued + seq![attach] + told.take(
                            it.index() as int,
                        ),
                {
                    let ghost sent = command_views(commands@);
                    commands.push(Command::Send { to: delivery.to, message: delivery.message });
                    assert(command_views(commands@) =~= sent.push(told[it.index() as int]));
                    assert(queued + seq![attach] + told.take(it.index() + 1) =~= sent.push(
                        told[it.index() as int],
                    ));
                }
                assert(told.take(deliveries@.len() as int) =~= told);
                commands.push(Command::Send { to: sender, message: ready });
                assert(command_views(commands@) =~= commands_of(self@, sender));
            },
            Outcome::Publish { key, record } => {
                commands.push(Command::Persist { key, record });
                assert(command_views(commands@) =~= commands_of(self@, sender));
            },
        }
        commands
    }
}

/// The refusal for `reason` that tells the sender `text`.
pub open spec fn rejection(reason: RoomError, text: Seq<char>) -> OutcomeView {
    OutcomeView::Rejected { reason, reply: MessageView::Error { message: text } }
}

/// The outcome of a message from a preparing session that has `queue`
/// waiting.
///
/// Only a join request under a free name is accepted. The sender then gets
/// its queue, and every other active session is told that it joined.
pub open spec fn outcome_while_preparing(
    table: TableView,
    conn: u64,
    queue: Seq<MessageView>,
    message: MessageView,
) -> OutcomeView {
    match message {
        MessageView::JoinRequest { name } => if username_in_use(table, name) {
            rejection(RoomError::DuplicateIdentity, "username already used"@)
        } else {
            OutcomeView::Joined {
                flushed: queue,
                attachment: MetadataView { username: Some(name) },
                deliveries: deliveries_to_active(
                    table,
                    Some(conn),
                    MessageView::MemberJoined { name },
                ),
                ready: MessageView::Ready { ready: true },
            }
        },
        _ => rejection(RoomError::ProtocolViolation, "expected JoinRequest message"@),
    }
}

/// The outcome of a message from the session that is active as `username`,
/// at the time `now`.
///
/// Only chat text is accepted. It becomes a record under the sender's name
/// and the current time, keyed by that time in decimal.
pub open spec fn outcome_while_active(
    username: Seq<char>,
    message: MessageView,
    now: u64,
) -> OutcomeView {
    match message {
        MessageView::Text { content } => OutcomeView::Publish {
            key: decimal(now as nat),
            record: MessageView::Broadcast { name: username, content, timestamp: now },
        },
        _ => rejection(RoomError::ProtocolViolation, "expected Text message"@),
    }
}

/// What the room decides on `frame`, which came from `conn` at the time
/// `now`, while its sessions are `table`.
///
/// Whether a frame holds a message is settled before the sender's session is
/// looked at. A message is then judged by the state of that session. The
/// room is never asked about a message from a connection without one.
pub open spec fn outcome_of(
    table: TableView,
    conn: u64,
    frame: InboundView,
    now: u64,
) -> OutcomeView {
    match frame {
        InboundView::NotText => rejection(RoomError::MalformedMessage, "expected text frame"@),
        InboundView::Malformed => rejection(
            RoomError::MalformedMessage,
            "unexpected format of message"@,
        ),
        InboundView::Parsed(message) => match session_of(table, conn) {
            Some(SessionView::Active { username }) => outcome_while_active(username, message, now),
            Some(SessionView::Preparing { queue }) => outcome_while_preparing(
                table,
                conn,
                queue,
                message,
            ),
            None => rejection(RoomError::ProtocolViolation, "expected JoinRequest message"@),
        },
    }
}

/// The sessions after `conn` has joined as `name`: its session is active,
/// and the notice of its joining is queued on every preparing session.
pub open spec fn joined(table: TableView, conn: u64, name: Seq<char>) -> TableView {
    queued_on_preparing(
        table.update(position(table, conn), (conn, SessionView::Active { username: name })),
        Some(conn),
        MessageView::MemberJoined { name },
    )
}

/// The sessions after the room has decided on `frame` from `conn`. Only a
/// join changes them.
pub open spec fn sessions_after(
    table: TableView,
    conn: u64,
    frame: InboundView,
    now: u64,
) -> TableView {
    if outcome_of(table, conn, frame, now) is Joined {
        joined(table, conn, frame->Parsed_0->JoinRequest_name)
    } else {
        table
    }
}

} // verus!
