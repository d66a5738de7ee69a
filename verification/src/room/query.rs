//! The room name that a connecting request asks for, read from the query of
//! its URL.

use super::error::RoomError;
use vstd::prelude::*;
use vstd::string::StringExecFns;

verus! {

/// Declares `worker::Error`, the error of the `worker` crate. The library
/// only carries such a value from the parser to the place where it is
/// replaced by a fault of its own; nothing is claimed of what it holds.
#[verifier::external_type_specification]
#[verifier::external_body]
pub struct ExWorkerError(worker::Error);

/// The query pairs of the URL that `url` spells, keys and values decoded, in
/// the order of the query; nothing where `url` is no absolute URL.
///
/// This is what the parser of the `url` crate, which `worker` hands on,
/// makes of the text. It is not defined here.
pub uninterp spec fn query_of(url: Seq<char>) -> Option<Seq<(Seq<char>, Seq<char>)>>;

/// The values of a run of pairs.
pub open spec fn pair_views(pairs: Seq<(String, String)>) -> Seq<(Seq<char>, Seq<char>)> {
    pairs.map_values(|pair: (String, String)| (pair.0@, pair.1@))
}

/// Whether `index` is where the first pair with the key `key` stands.
pub open spec fn is_first_with_key(
    pairs: Seq<(Seq<char>, Seq<char>)>,
    key: Seq<char>,
    index: int,
) -> bool {
    &&& 0 <= index < pairs.len()
    &&& pairs[index].0 == key
    &&& forall|j: int| 0 <= j < index ==> pairs[j].0 != key
}

/// The value of the first pair with the key `key`, if there is such a pair.
pub open spec fn first_value(pairs: Seq<(Seq<char>, Seq<char>)>, key: Seq<char>) -> Option<
    Seq<char>,
> {
    if exists|index: int| is_first_with_key(pairs, key, index) {
        Some(pairs[choose|index: int| is_first_with_key(pairs, key, index)].1)
    } else {
        None
    }
}

/// The room name that a URL with the query `pairs` asks for: the value of
/// its first `roomname` pair.
pub open spec fn room_name_in(pairs: Seq<(Seq<char>, Seq<char>)>) -> Option<Seq<char>> {
    first_value(pairs, "roomname"@)
}

/// Parses `url` and lists the pairs of its query.
///
/// Trusted: the body calls `worker::Url::parse` and, on the URL it gives,
/// `Url::query_pairs`, and copies each pair out. A parse error comes back as
/// `worker::Error` makes it. The contract only gives the outcome its name,
/// [`query_of`]: the same text always gives the same pairs, or always fails.
#[verifier::external_body]
fn query_pairs(url: &str) -> (listed: Result<Vec<(String, String)>, worker::Error>)
    ensures
        listed is Ok <==> query_of(url@) is Some,
        listed matches Ok(pairs) ==> Some(pair_views(pairs@)) == query_of(url@),
{
    let parsed = worker::Url::parse(url).map_err(worker::Error::from)?;
    Ok(parsed.query_pairs().map(|(key, value)| (key.into_owned(), value.into_owned())).collect())
}

/// The pairs of the query of `url`, or the fault of a text that is no URL.
pub fn query_pairs_of(url: &str) -> (listed: Result<Vec<(String, String)>, RoomError>)
    ensures
        match listed {
            Ok(pairs) => Some(pair_views(pairs@)) == query_of(url@),
            Err(fault) => fault == RoomError::InvalidUrl && query_of(url@) is None,
        },
{
    match query_pairs(url) {
        Ok(pairs) => Ok(pairs),
        Err(_) => Err(RoomError::InvalidUrl),
    }
}

/// The address under which the room named `roomname` is asked for a
/// connection.
pub fn room_url(roomname: &str) -> (url: String)
    ensures
        url@ == "http://rooms?roomname="@ + roomname@,
{
    "http://rooms?roomname=".to_owned().concat(roomname)
}

/// The room name that a query asks for: the value of its first `roomname`
/// pair.
pub fn room_name_of(pairs: &Vec<(String, String)>) -> (name: Option<String>)
    ensures
        match name {
            Some(text) => room_name_in(pair_views(pairs@)) == Some(text@),
            None => room_name_in(pair_views(pairs@)) is None,
        },
{
    let key = "roomname".to_owned();
    let mut index: usize = 0;
    while index < pairs.len()
        invariant
            key@ == "roomname"@,
            index <= pairs.len(),
            forall|j: int| 0 <= j < index ==> pair_views(pairs@)[j].0 != key@,
        decreases pairs.len() - index,
    {
        if pairs[index].0 == key {
            proof {
                lemma_first_value(pair_views(pairs@), key@, index as int);
            }
            return Some(pairs[index].1.clone());
        }
        index += 1;
    }
    assert(forall|at: int| !is_first_with_key(pair_views(pairs@), key@, at));
    None
}

/// The first pair with a key stands in one place only.
pub proof fn lemma_first_value(pairs: Seq<(Seq<char>, Seq<char>)>, key: Seq<char>, index: int)
    requires
        is_first_with_key(pairs, key, index),
    ensures
        first_value(pairs, key) == Some(pairs[index].1),
{
    let chosen = choose|at: int| is_first_with_key(pairs, key, at);
    assert(is_first_with_key(pairs, key, chosen));
    assert(chosen == index);
}

} // verus!
