use vstd::hash_map::StringHashMap;
use vstd::prelude::*;
use vstd::utf8::encode_utf8;

use crate::resp::commands::{command_from_input, get_command_from_input, Command, RespCommand, RespCommandError};
use crate::resp::{serialize, utf8_bytes, RespValue};
use crate::worker::{bulk_reply, null_bulk, null_reply, ok, ok_reply, pong, pong_reply};

verus! {

/// The reply to a request read from `packet`, against a plain map of keys to
/// values without expiry: what the request names, or `InvalidArgument` for a
/// request that does not name a command.
pub open spec fn response_of(packet: Seq<u8>, store: Map<Seq<char>, Vec<u8>>) -> Result<Seq<u8>, RespCommandError> {
    match command_from_input(packet) {
        Err(_) => Err(RespCommandError::InvalidArgument),
        Ok(Command::Ping) => Ok(pong_reply()),
        Ok(Command::Echo(t)) => Ok(serialize(RespValue::BulkString(encode_utf8(t)))),
        Ok(Command::SetKey(_, _, _)) => Ok(ok_reply()),
        Ok(Command::Get(k)) => if store.contains_key(k) {
            Ok(serialize(RespValue::BulkString(store[k]@)))
        } else {
            Ok(null_reply())
        },
    }
}

/// Answers one request against a plain map of keys to values: SET stores the
/// value (a time to live is not kept), GET reads it back.
pub fn respond_to_request(packet: &[u8], store: &mut StringHashMap<Vec<u8>>) -> (r: Result<Vec<u8>, RespCommandError>)
    ensures
        match (r, response_of(packet@, old(store)@)) {
            (Ok(bytes), Ok(expected)) => bytes@ == expected,
            (Err(a), Err(b)) => a == b,
            _ => false,
        },
        match command_from_input(packet@) {
            Ok(Command::SetKey(k, v, _)) => final(store)@.dom() == old(store)@.dom().insert(k)
                && final(store)@[k]@ == v && forall|j: Seq<char>| j != k && #[trigger] old(store)@.contains_key(j)
                ==> final(store)@[j] == old(store)@[j],
            _ => final(store)@ == old(store)@,
        },
{
    match get_command_from_input(packet) {
        Ok(command) => match command {
            RespCommand::Ping => Ok(pong()),
            RespCommand::Echo(e) => Ok(bulk_reply(utf8_bytes(e.value.as_str()))),
            RespCommand::SetKey(s) => {
                store.insert(s.key, s.value);
                Ok(ok())
            },
            RespCommand::Get(g) => match store.get(g.key.as_str()) {
                Some(value) => Ok(bulk_reply(value.as_slice())),
                None => Ok(null_bulk()),
            },
        },
        Err(_) => Err(RespCommandError::InvalidArgument),
    }
}

} // verus!
