//! The room's side of the persistent log: how entries are keyed, and how
//! much of the log a new connection is shown, in what order.
//!
//! The store itself is the embedding program's. It keeps the entries in
//! ascending key order; it is asked for its newest entries, newest first.

use super::message::MessageView;
use vstd::prelude::*;
use vstd::string::StringExecFns;

verus! {

/// How many of the newest log entries a new connection is shown.
pub const HISTORY_LIMIT: usize = 100;

/// The decimal digit for `d`, which is below ten.
pub open spec fn digit(d: int) -> char {
    if d == 0 {
        '0'
    } else if d == 1 {
        '1'
    } else if d == 2 {
        '2'
    } else if d == 3 {
        '3'
    } else if d == 4 {
        '4'
    } else if d == 5 {
        '5'
    } else if d == 6 {
        '6'
    } else if d == 7 {
        '7'
    } else if d == 8 {
        '8'
    } else {
        '9'
    }
}

/// `n` written in decimal, without leading zeros.
pub open spec fn decimal(n: nat) -> Seq<char>
    decreases n,
{
    if n < 10 {
        seq![digit(n as int)]
    } else {
        decimal(n / 10).push(digit((n % 10) as int))
    }
}

/// What the store lists when asked for its `limit` newest entries, newest
/// first, of a log that holds `log` in ascending key order.
pub open spec fn newest_first(log: Seq<MessageView>, limit: nat) -> Seq<MessageView> {
    if limit <= log.len() {
        log.skip(log.len() - limit).reverse()
    } else {
        log.reverse()
    }
}

/// What a new connection is shown of a listing that came newest first: at
/// most [`HISTORY_LIMIT`] of its entries from the front, oldest first.
pub open spec fn replay(listed: Seq<MessageView>) -> Seq<MessageView> {
    if HISTORY_LIMIT <= listed.len() {
        listed.take(HISTORY_LIMIT as int).reverse()
    } else {
        listed.reverse()
    }
}

/// The one-character text of the digit `d`.
fn digit_text(d: u64) -> (text: &'static str)
    requires
        d < 10,
    ensures
        text@ == seq![digit(d as int)],
{
    proof {
        reveal_strlit("0");
        reveal_strlit("1");
        reveal_strlit("2");
        reveal_strlit("3");
        reveal_strlit("4");
        reveal_strlit("5");
        reveal_strlit("6");
        reveal_strlit("7");
        reveal_strlit("8");
        reveal_strlit("9");
    }
    let text = match d {
        0 => "0",
        1 => "1",
        2 => "2",
        3 => "3",
        4 => "4",
        5 => "5",
        6 => "6",
        7 => "7",
        8 => "8",
        _ => "9",
    };
    assert(text@ =~= seq![digit(d as int)]);
    text
}

/// Appends `n` in decimal to `out`.
fn write_decimal(out: &mut String, n: u64)
    ensures
        final(out)@ == old(out)@ + decimal(n as nat),
    decreases n,
{
    if n >= 10 {
        write_decimal(out, n / 10);
    }
    out.append(digit_text(n % 10));
    assert(out@ =~= old(out)@ + decimal(n as nat));
}

/// The key under which the log keeps the record of `timestamp`: the
/// timestamp in decimal.
///
/// Two records of one second share a key, and the store keeps the later of
/// them.
pub fn entry_key(timestamp: u64) -> (key: String)
    ensures
        key@ == decimal(timestamp as nat),
{
    let mut key = String::new();
    write_decimal(&mut key, timestamp);
    assert(key@ =~= decimal(timestamp as nat));
    key
}

} // verus!
