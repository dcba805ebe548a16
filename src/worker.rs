use vstd::prelude::*;
use vstd::utf8::encode_utf8;

use crate::resp::commands::{Command, RespCommand};
use crate::resp::types::RespBulkString;
use crate::resp::{serialize, utf8_bytes, RespValue};
use crate::store::{lookup, Database};

verus! {

/// How many due expiries one reclamation pass may take.
pub const RECLAIM_BUDGET: usize = 1000;

/// `+PONG\r\n`
pub open spec fn pong_reply() -> Seq<u8> {
    seq![43u8, 80u8, 79u8, 78u8, 71u8, 13u8, 10u8]
}

/// `+OK\r\n`
pub open spec fn ok_reply() -> Seq<u8> {
    seq![43u8, 79u8, 75u8, 13u8, 10u8]
}

/// `$-1\r\n`, the reply for a key that holds nothing.
pub open spec fn null_reply() -> Seq<u8> {
    seq![36u8, 45u8, 49u8, 13u8, 10u8]
}

pub fn pong() -> (r: Vec<u8>)
    ensures
        r@ == pong_reply(),
{
    let r = vec![43u8, 80u8, 79u8, 78u8, 71u8, 13u8, 10u8];
    assert(r@ =~= pong_reply());
    r
}

pub fn ok() -> (r: Vec<u8>)
    ensures
        r@ == ok_reply(),
{
    let r = vec![43u8, 79u8, 75u8, 13u8, 10u8];
    assert(r@ =~= ok_reply());
    r
}

pub fn null_bulk() -> (r: Vec<u8>)
    ensures
        r@ == null_reply(),
{
    let r = vec![36u8, 45u8, 49u8, 13u8, 10u8];
    assert(r@ =~= null_reply());
    r
}

/// The bulk string reply that carries `bytes`.
pub fn bulk_reply(bytes: &[u8]) -> (r: Vec<u8>)
    ensures
        r@ == serialize(RespValue::BulkString(bytes@)),
{
    RespBulkString::new(bytes).encode()
}

/// What the worker does next, given how long until the earliest scheduled
/// expiry falls due.
#[derive(Debug, Clone, Copy, PartialEq, Eq, Structural)]
pub enum WaitPlan {
    /// Nothing is scheduled: wait for the next command however long it takes.
    Forever,
    /// An expiry is due: reclaim at once.
    ReclaimNow,
    /// Wait for a command at most this many milliseconds, then reclaim.
    Wait(u64),
}

/// The wait that the time until the next expiry calls for.
pub fn plan_wait(until_next: Option<u64>) -> (r: WaitPlan)
    ensures
        r == match until_next {
            None => WaitPlan::Forever,
            Some(0) => WaitPlan::ReclaimNow,
            Some(ms) => WaitPlan::Wait(ms),
        },
{
    match until_next {
        None => WaitPlan::Forever,
        Some(ms) => if ms == 0 {
            WaitPlan::ReclaimNow
        } else {
            WaitPlan::Wait(ms)
        },
    }
}

/// The reply that `command`, run at instant `now`, gives when `db` was the
/// database before it.
pub open spec fn reply_of(command: Command, db: &Database, now: u64) -> Seq<u8> {
    match command {
        Command::Ping => pong_reply(),
        Command::Echo(t) => serialize(RespValue::BulkString(encode_utf8(t))),
        Command::SetKey(_, _, _) => ok_reply(),
        Command::Get(k) => match lookup(db.entries(), k, now) {
            Some(e) => serialize(RespValue::BulkString(e.value@)),
            None => null_reply(),
        },
    }
}

/// What running `command` at instant `now` does to the database.
pub open spec fn effect_of(command: Command, before: &Database, after: &Database, now: u64) -> bool {
    match command {
        Command::SetKey(k, v, ttl) => Database::set_done(before, after, k, v, ttl, now),
        _ => after.entries() == before.entries() && after.schedule() == before.schedule(),
    }
}

/// Runs `command` against `db` at instant `now` and gives the reply to send.
pub fn execute_at(command: RespCommand, db: &mut Database, now: u64) -> (r: Option<Vec<u8>>)
    requires
        old(db).wf(),
    ensures
        final(db).wf(),
        r matches Some(bytes) && bytes@ == reply_of(command@, old(db), now),
        effect_of(command@, old(db), final(db), now),
{
    match command {
        RespCommand::Ping => Some(pong()),
        RespCommand::Echo(e) => Some(bulk_reply(utf8_bytes(e.value.as_str()))),
        RespCommand::SetKey(s) => {
            db.set_at(s.key.as_str(), s.value.as_slice(), s.ttl, now);
            Some(ok())
        },
        RespCommand::Get(g) => match db.get_at(g.key.as_str(), now) {
            Some(entry) => Some(bulk_reply(entry.value.as_slice())),
            None => Some(null_bulk()),
        },
    }
}

/// Runs `command` against `db` now and gives the reply to send.
pub fn execute(command: RespCommand, db: &mut Database) -> (r: Option<Vec<u8>>)
    requires
        old(db).wf(),
    ensures
        final(db).wf(),
        exists|now: u64|
            r matches Some(bytes) && bytes@ == reply_of(command@, old(db), now) && #[trigger] effect_of(
                command@,
                old(db),
                final(db),
                now,
            ),
{
    let now = db.now_millis();
    execute_at(command, db, now)
}

} // verus!
