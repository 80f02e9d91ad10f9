//! The daemon's answer to one control-plane request.

use vstd::prelude::*;
use crate::ipc::{Message, MessageType};

verus! {

/// Answers one request: a `List` request is answered with a `List` response
/// carrying the registry snapshot the caller prepared; any other kind is
/// answered with `Unknown` rather than closing the connection.
pub fn handle_client(msg: &Message, snapshot: String) -> (r: Message)
    ensures
        msg.kind == MessageType::List ==> r.kind == MessageType::List && r.payload == Some(
            snapshot,
        ),
        msg.kind != MessageType::List ==> r.kind == MessageType::Unknown && r.payload is None,
{
    match msg.kind {
        MessageType::List => Message::from_type(MessageType::List).with(snapshot),
        _ => Message::from_type(MessageType::Unknown),
    }
}

} // verus!
