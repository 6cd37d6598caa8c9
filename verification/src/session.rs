//! One connection's side of the protocol: the bytes received and not yet
//! decoded, and the cycle that turns them into replies.
//!
//! The session does no input or output. Its owner hands it what was read from
//! the peer, asks it for replies and writes them out. A frame that has only
//! arrived in part stays in the session until the rest has come.

use vstd::prelude::*;
use vstd::slice::slice_subrange;
use crate::ascii::push_bytes;
use crate::command::{Command, DecodeError, decode, lemma_decode_bounds, resp_deserialize};
use crate::dispatch::{answer, effect};
use crate::reply::{Reply, ReplyView, description, encoding};
use crate::store::{EntryView, Store};

verus! {

/// What one or more frames have led to.
pub struct Turn {
    /// The bytes to send to the peer.
    pub reply: Seq<u8>,
    /// The store as it is left.
    pub entries: Map<Seq<u8>, EntryView>,
    /// The received bytes that are still undecoded.
    pub rest: Seq<u8>,
}

/// What the frame at the front of `pending` leads to at the instant `now`,
/// if a whole frame or a defect stands there: a command is run and
/// answered, anything else is answered with an error and leaves the store
/// alone. The bytes that were decoded are dropped, the others kept.
pub open spec fn turn(pending: Seq<u8>, entries: Map<Seq<u8>, EntryView>, now: u64) -> Option<
    Turn,
> {
    let (outcome, consumed) = decode(pending);
    match outcome {
        Err(DecodeError::Incomplete) => None,
        Err(e) => Some(
            Turn {
                reply: encoding(ReplyView::Error(description(e))),
                entries,
                rest: pending.skip(consumed as int),
            },
        ),
        Ok(cmd) => Some(
            Turn {
                reply: encoding(answer(cmd, effect(cmd, entries, now), now)),
                entries: effect(cmd, entries, now),
                rest: pending.skip(consumed as int),
            },
        ),
    }
}

/// What all the frames at the front of `pending` lead to, taken one after
/// the other until the buffer is empty or stops inside a frame: the replies
/// in the order of the frames, the store after the last of them, and the
/// bytes behind the last of them.
pub open spec fn turns(pending: Seq<u8>, entries: Map<Seq<u8>, EntryView>, now: u64) -> Turn
    decreases pending.len(),
{
    match turn(pending, entries, now) {
        None => Turn { reply: Seq::empty(), entries, rest: pending },
        Some(first) => {
            if first.rest.len() < pending.len() {
                let others = turns(first.rest, first.entries, now);
                Turn { reply: first.reply + others.reply, entries: others.entries, rest: others.rest }
            } else {
                first
            }
        },
    }
}

/// What the owner of a session reports to it.
#[derive(Clone, Copy, Debug)]
pub enum Event<'a> {
    /// A read from the peer returned these bytes. A read that returns none
    /// is the end of the stream.
    Received(&'a [u8]),
    /// The reply that the session handed out last has been written in full.
    Sent,
    /// A read or a write has failed.
    Failed,
}

/// The mathematical value of an event.
pub enum EventView {
    Received(Seq<u8>),
    Sent,
    Failed,
}

impl<'a> View for Event<'a> {
    type V = EventView;

    open spec fn view(&self) -> EventView {
        match *self {
            Event::Received(bytes) => EventView::Received(bytes@),
            Event::Sent => EventView::Sent,
            Event::Failed => EventView::Failed,
        }
    }
}

/// What a session asks its owner to do next.
#[derive(Clone, Debug, PartialEq, Eq)]
pub enum Action {
    /// Read from the peer and report what came.
    Read,
    /// Write these bytes to the peer and report when they are out.
    Write(Vec<u8>),
    /// Close the connection and drop the session.
    Close,
}

/// The mathematical value of an action.
pub enum ActionView {
    Read,
    Write(Seq<u8>),
    Close,
}

impl View for Action {
    type V = ActionView;

    open spec fn view(&self) -> ActionView {
        match *self {
            Action::Read => ActionView::Read,
            Action::Write(bytes) => ActionView::Write(bytes@),
            Action::Close => ActionView::Close,
        }
    }
}

/// How a session answers an event.
pub struct Reaction {
    /// What the owner is to do next.
    pub action: ActionView,
    /// The store as it is left.
    pub entries: Map<Seq<u8>, EntryView>,
    /// The received bytes that are still undecoded.
    pub rest: Seq<u8>,
}

/// The next frame of `pending` is taken up if it is whole: its reply is to
/// be written. Where the buffer is empty or stops inside a frame, more is to
/// be read.
pub open spec fn proceed(pending: Seq<u8>, entries: Map<Seq<u8>, EntryView>, now: u64) -> Reaction {
    match turn(pending, entries, now) {
        None => Reaction { action: ActionView::Read, entries, rest: pending },
        Some(t) => Reaction { action: ActionView::Write(t.reply), entries: t.entries, rest: t.rest },
    }
}

/// How a session with the undecoded bytes `pending` answers `event` at the
/// instant `now`. A failure and the end of the stream close the connection
/// and touch nothing. Bytes that came are put behind those that wait. A frame
/// is only taken up when bytes came or when the reply before it is out: so
/// the replies leave in the order of the frames, each one before the next
/// frame is run.
pub open spec fn react(
    event: EventView,
    pending: Seq<u8>,
    entries: Map<Seq<u8>, EntryView>,
    now: u64,
) -> Reaction {
    match event {
        EventView::Failed => Reaction { action: ActionView::Close, entries, rest: pending },
        EventView::Received(bytes) => {
            if bytes.len() == 0 {
                Reaction { action: ActionView::Close, entries, rest: pending }
            } else {
                proceed(pending + bytes, entries, now)
            }
        },
        EventView::Sent => proceed(pending, entries, now),
    }
}

/// Every turn takes bytes off the front of the buffer, at least one.
pub proof fn lemma_turn_progress(pending: Seq<u8>, entries: Map<Seq<u8>, EntryView>, now: u64)
    ensures
        turn(pending, entries, now) matches Some(t) ==> t.rest.len() < pending.len(),
{
    lemma_decode_bounds(pending);
}

/// The state of one connection: the bytes that were received and are not
/// decoded yet.
pub struct Session {
    buffer: Vec<u8>,
    start: usize,
}

impl View for Session {
    type V = Seq<u8>;

    /// The undecoded bytes, oldest first.
    closed spec fn view(&self) -> Seq<u8> {
        self.buffer@.subrange(self.start as int, self.buffer.len() as int)
    }
}

impl Session {
    #[verifier::type_invariant]
    spec fn start_in_buffer(self) -> bool {
        self.start <= self.buffer.len()
    }

    /// A session that has received nothing.
    pub fn new() -> (session: Session)
        ensures
            session@ == Seq::<u8>::empty(),
    {
        Session { buffer: Vec::new(), start: 0 }
    }

    /// The number of bytes that are received and not decoded yet.
    pub fn pending_len(&self) -> (n: usize)
        ensures
            n == self@.len(),
    {
        proof {
            use_type_invariant(self);
        }
        self.buffer.len() - self.start
    }

    /// Takes in bytes that were read from the peer.
    pub fn receive(&mut self, bytes: &[u8])
        ensures
            final(self)@ == old(self)@ + bytes@,
    {
        proof {
            use_type_invariant(&*self);
        }
        let start: usize = self.start;
        self.start = 0;
        let mut buffer: Vec<u8> = Vec::new();
        std::mem::swap(&mut buffer, &mut self.buffer);
        if start > 0 {
            // Decoded bytes still lead the buffer: drop them before it grows.
            buffer = buffer.split_off(start);
        }
        push_bytes(&mut buffer, bytes);
        self.buffer = buffer;
        assert(final(self)@ =~= old(self)@ + bytes@);
    }

    /// Decodes the frame at the front of the buffer, runs it against the
    /// store at the instant `now` and returns the bytes of the reply. Returns
    /// `None`, and changes nothing, where the buffer is empty or stops inside
    /// a frame.
    pub fn step(&mut self, store: &mut Store, now: u64) -> (reply: Option<Vec<u8>>)
        ensures
            match turn(old(self)@, old(store)@, now) {
                None => reply is None && final(self)@ == old(self)@ && final(store)@ == old(
                    store,
                )@,
                Some(t) => reply matches Some(bytes) && bytes@ == t.reply && final(store)@
                    == t.entries && final(self)@ == t.rest,
            },
    {
        proof {
            use_type_invariant(&*self);
        }
        let pending = slice_subrange(self.buffer.as_slice(), self.start, self.buffer.len());
        let (outcome, consumed) = resp_deserialize(pending);
        match outcome {
            Err(DecodeError::Incomplete) => None,
            Err(e) => {
                self.start = self.start + consumed;
                assert(final(self)@ =~= old(self)@.skip(consumed as int));
                Some(Reply::failure(e).encode())
            },
            Ok(cmd) => {
                self.start = self.start + consumed;
                assert(final(self)@ =~= old(self)@.skip(consumed as int));
                cmd.run(store, now);
                Some(cmd.response(store, now))
            },
        }
    }

    /// Answers an event that the owner of the session reports, at the
    /// instant `now`, with what the owner is to do next.
    pub fn handle(&mut self, event: Event, store: &mut Store, now: u64) -> (action: Action)
        ensures
            action@ == react(event@, old(self)@, old(store)@, now).action,
            final(store)@ == react(event@, old(self)@, old(store)@, now).entries,
            final(self)@ == react(event@, old(self)@, old(store)@, now).rest,
    {
        match event {
            Event::Failed => {
                return Action::Close;
            },
            Event::Received(bytes) => {
                if bytes.len() == 0 {
                    return Action::Close;
                }
                self.receive(bytes);
            },
            Event::Sent => {},
        }
        match self.step(store, now) {
            None => Action::Read,
            Some(reply) => Action::Write(reply),
        }
    }

    /// Decodes and runs every whole frame in the buffer, in order, and
    /// returns the bytes of their replies, in the same order. What is left in
    /// the buffer is empty or the beginning of a frame.
    pub fn drain(&mut self, store: &mut Store, now: u64) -> (out: Vec<u8>)
        ensures
            out@ == turns(old(self)@, old(store)@, now).reply,
            final(store)@ == turns(old(self)@, old(store)@, now).entries,
            final(self)@ == turns(old(self)@, old(store)@, now).rest,
    {
        let ghost whole = turns(self@, store@, now);
        let mut out: Vec<u8> = Vec::new();
        loop
            invariant
                whole.reply == out@ + turns(self@, store@, now).reply,
                whole.entries == turns(self@, store@, now).entries,
                whole.rest == turns(self@, store@, now).rest,
            ensures
                whole.reply == out@,
                whole.entries == store@,
                whole.rest == self@,
            decreases self@.len(),
        {
            proof {
                lemma_turn_progress(self@, store@, now);
            }
            let ghost before = out@;
            let ghost first = turn(self@, store@, now);
            match self.step(store, now) {
                None => {
                    assert(out@ + Seq::<u8>::empty() =~= out@);
                    break ;
                },
                Some(bytes) => {
                    push_bytes(&mut out, bytes.as_slice());
                    assert(before + (bytes@ + turns(self@, store@, now).reply) =~= out@ + turns(
                        self@,
                        store@,
                        now,
                    ).reply);
                },
            }
        }
        out
    }
}

} // verus!
