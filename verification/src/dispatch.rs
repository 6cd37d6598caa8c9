//! What a command does to the store and what it is answered with.
//!
//! | command         | effect on the store     | reply                         |
//! |-----------------|-------------------------|-------------------------------|
//! | `PING`          | none                    | the simple string `PONG`      |
//! | `ECHO message`  | none                    | the message, as a simple string |
//! | `SET key value` | writes the entry        | the simple string `OK`        |
//! | `GET key`       | none                    | the value as a bulk string, or nil |

use vstd::prelude::*;
use crate::ascii::{ascii_bytes, text_bytes};
use crate::command::{CMD, Command};
use crate::reply::{Reply, ReplyView, encoding};
use crate::store::{EntryView, Store, lookup, written};

verus! {

/// The store that `cmd`, run at the instant `now`, leaves of `entries`.
pub open spec fn effect(cmd: Command, entries: Map<Seq<u8>, EntryView>, now: u64) -> Map<
    Seq<u8>,
    EntryView,
> {
    match cmd {
        Command::SET(key, value, ttl) => entries.insert(key, written(value, ttl, now)),
        _ => entries,
    }
}

/// The reply to `cmd` at the instant `now`, read off the store that the
/// command has left.
pub open spec fn answer(cmd: Command, entries: Map<Seq<u8>, EntryView>, now: u64) -> ReplyView {
    match cmd {
        Command::PING => ReplyView::SimpleString(ascii_bytes("PONG"@)),
        Command::ECHO(message) => ReplyView::SimpleString(message),
        Command::SET(_, _, _) => ReplyView::SimpleString(ascii_bytes("OK"@)),
        Command::GET(key) => match lookup(entries, key, now) {
            Some(value) => ReplyView::BulkString(value),
            None => ReplyView::Nil,
        },
    }
}

impl CMD {
    /// Carries out the command's effect on the store, at the instant `now`.
    pub fn run(&self, env: &mut Store, now: u64)
        ensures
            final(env)@ == effect(self@, old(env)@, now),
    {
        match self {
            CMD::SET(key, value, ttl) => {
                env.set(key.clone(), value.clone(), *ttl, now);
            },
            _ => {},
        }
    }

    /// The reply to the command at the instant `now`, given the store as the
    /// command has left it.
    pub fn reply(&self, env: &Store, now: u64) -> (reply: Reply)
        ensures
            reply@ == answer(self@, env@, now),
    {
        match self {
            CMD::PING => {
                proof {
                    reveal_strlit("PONG");
                }
                Reply::SimpleString(text_bytes("PONG"))
            },
            CMD::ECHO(message) => Reply::SimpleString(message.clone()),
            CMD::SET(_, _, _) => {
                proof {
                    reveal_strlit("OK");
                }
                Reply::SimpleString(text_bytes("OK"))
            },
            CMD::GET(key) => match env.get(key.as_slice(), now) {
                Some(value) => Reply::BulkString(value.clone()),
                None => Reply::Nil,
            },
        }
    }

    /// The bytes that answer the command on the wire.
    pub fn response(self, env: &Store, now: u64) -> (out: Vec<u8>)
        ensures
            out@ == encoding(answer(self@, env@, now)),
    {
        self.reply(env, now).encode()
    }
}

} // verus!
