//! The rule of a plain echo connection, which needs no room: it greets, then
//! sends every text back until it is told to close.

use vstd::prelude::*;

verus! {

/// What an echo connection does with one text it received.
#[derive(Debug, PartialEq, Eq)]
pub enum Echo {
    /// The text asked to close: stop receiving.
    Stop,
    /// Send this text back.
    Reply(String),
}

/// The mathematical value of an [`Echo`].
pub enum EchoView {
    Stop,
    Reply(Seq<char>),
}

impl View for Echo {
    type V = EchoView;

    open spec fn view(&self) -> EchoView {
        match *self {
            Echo::Stop => EchoView::Stop,
            Echo::Reply(text) => EchoView::Reply(text@),
        }
    }
}

/// What an echo connection says first.
pub fn greeting() -> (text: &'static str)
    ensures
        text@ == "Hello!"@,
{
    "Hello!"
}

/// The step that `text` calls for: `close` stops the echo, and any other
/// text goes back as it came.
pub fn echo(text: String) -> (step: Echo)
    ensures
        step@ == if text@ == "close"@ {
            EchoView::Stop
        } else {
            EchoView::Reply(text@)
        },
{
    if text == "close".to_owned() {
        Echo::Stop
    } else {
        Echo::Reply(text)
    }
}

} // verus!
