//! What holds of the engine as a whole, stated over the same functions as the
//! contracts of the code and proved from their definitions.

use vstd::prelude::*;
use crate::ascii::{CR, LF, ascii_bytes, is_decimal};
use crate::command::{
    Command, DecodeError, decode, lemma_decode_bounds, lemma_decode_request, lemma_decode_stable,
    request,
};
use crate::dispatch::{answer, effect};
use crate::frame::{
    DOLLAR, lemma_line_end_found, lemma_parse_frame_bad_length, line_end, opening,
};
use crate::reply::{MINUS, PLUS, ReplyView, description, encoding};
use crate::session::{
    ActionView, EventView, Reaction, Turn, lemma_turn_progress, react, turn, turns,
};
use crate::store::{EntryView, lookup, unexpired, written};

verus! {

/// A command together with the instant at which it is run.
pub struct Run {
    pub cmd: Command,
    pub at: u64,
}

/// The store that a series of commands, run one after the other on an empty
/// store, leaves.
pub open spec fn replay(history: Seq<Run>) -> Map<Seq<u8>, EntryView>
    decreases history.len(),
{
    if history.len() == 0 {
        Map::empty()
    } else {
        effect(history.last().cmd, replay(history.drop_last()), history.last().at)
    }
}

/// Whether `cmd` writes `key`.
pub open spec fn writes(cmd: Command, key: Seq<u8>) -> bool {
    cmd matches Command::SET(k, _, _) && k == key
}

/// The entry that the last write of `key` in `history` left, if the key was
/// ever written.
pub open spec fn last_write(history: Seq<Run>, key: Seq<u8>) -> Option<EntryView>
    decreases history.len(),
{
    if history.len() == 0 {
        None
    } else {
        match history.last().cmd {
            Command::SET(k, value, ttl) if k == key => Some(written(value, ttl, history.last().at)),
            _ => last_write(history.drop_last(), key),
        }
    }
}

/// A value that is written without a time to live is read back as it was
/// written, whatever bytes it holds and however much later it is read.
pub proof fn law_set_then_get(
    entries: Map<Seq<u8>, EntryView>,
    key: Seq<u8>,
    value: Seq<u8>,
    now: u64,
    later: u64,
)
    ensures
        lookup(effect(Command::SET(key, value, None), entries, now), key, later) == Some(value),
        answer(Command::GET(key), effect(Command::SET(key, value, None), entries, now), later)
            == ReplyView::BulkString(value),
{
}

/// A value that is written with a time to live is read back before that
/// many milliseconds have passed since the write, and is absent from then on.
pub proof fn law_expiry(
    entries: Map<Seq<u8>, EntryView>,
    key: Seq<u8>,
    value: Seq<u8>,
    ttl: u64,
    now: u64,
    later: u64,
)
    ensures
        lookup(effect(Command::SET(key, value, Some(ttl)), entries, now), key, later) == if later
            < now + ttl {
            Some(value)
        } else {
            None
        },
{
}

/// A write without a time to live replaces what the key held, value and
/// time to live: the new value is read back at every later instant, also
/// behind the instant at which the entry it replaced was to expire.
pub proof fn law_overwrite(
    entries: Map<Seq<u8>, EntryView>,
    key: Seq<u8>,
    first: Seq<u8>,
    ttl: Option<u64>,
    second: Seq<u8>,
    earlier: u64,
    now: u64,
    later: u64,
)
    ensures
        lookup(
            effect(
                Command::SET(key, second, None),
                effect(Command::SET(key, first, ttl), entries, earlier),
                now,
            ),
            key,
            later,
        ) == Some(second),
{
}

/// What a lookup does not find, no later lookup finds either, as long as
/// nothing is written: an entry that has expired stays expired.
pub proof fn law_absent_stays_absent(
    entries: Map<Seq<u8>, EntryView>,
    key: Seq<u8>,
    now: u64,
    later: u64,
)
    requires
        now <= later,
        lookup(entries, key, now) is None,
    ensures
        lookup(entries, key, later) is None,
{
}

/// Dropping the entries that have expired by some instant changes no lookup
/// at that instant or later.
pub proof fn law_reclaiming_is_unobservable(
    entries: Map<Seq<u8>, EntryView>,
    key: Seq<u8>,
    now: u64,
    later: u64,
)
    requires
        now <= later,
    ensures
        lookup(unexpired(entries, now), key, later) == lookup(entries, key, later),
{
}

/// A simple string whose text holds no carriage return is sent as one line:
/// the line terminator that ends its wire form is the first one in it, so the
/// peer finds the end of the reply where it is.
pub proof fn law_simple_string_is_one_line(text: Seq<u8>)
    requires
        forall|i: int| 0 <= i < text.len() ==> text[i] != CR,
    ensures
        line_end(encoding(ReplyView::SimpleString(text)), 0) == Some(1 + text.len() as int),
        encoding(ReplyView::SimpleString(text)).len() == text.len() + 3,
{
    let wire = encoding(ReplyView::SimpleString(text));
    let e = 1 + text.len() as int;
    assert(wire[0] == PLUS);
    assert(wire[e] == CR);
    assert(wire[e + 1] == LF);
    assert forall|j: int| 0 <= j < e implies wire[j] != CR by {
        if j > 0 {
            assert(wire[j] == text[j - 1]);
        }
    }
    lemma_line_end_found(wire, 0, e);
}

/// What a series of commands leaves for a key is what the last write of the
/// key left, and nothing where the key was never written.
pub proof fn lemma_replay_last_write(history: Seq<Run>, key: Seq<u8>)
    ensures
        replay(history).dom().contains(key) <==> last_write(history, key) is Some,
        last_write(history, key) matches Some(entry) ==> replay(history)[key] == entry,
    decreases history.len(),
{
    if history.len() > 0 {
        lemma_replay_last_write(history.drop_last(), key);
    }
}

/// A key that no command has written is answered with nil, never with an
/// error, whatever else was run before.
pub proof fn law_unknown_key(history: Seq<Run>, key: Seq<u8>, now: u64)
    requires
        forall|i: int| 0 <= i < history.len() ==> !writes(#[trigger] history[i].cmd, key),
    ensures
        answer(Command::GET(key), replay(history), now) == ReplyView::Nil,
        encoding(answer(Command::GET(key), replay(history), now)) == seq![
            DOLLAR,
            MINUS,
            '1' as u8,
            CR,
            LF,
        ],
    decreases history.len(),
{
    lemma_never_written(history, key);
    lemma_replay_last_write(history, key);
    assert(encoding(ReplyView::Nil) =~= seq![DOLLAR, MINUS, '1' as u8, CR, LF]);
}

/// A key that no command of a series writes has no last write in it.
pub proof fn lemma_never_written(history: Seq<Run>, key: Seq<u8>)
    requires
        forall|i: int| 0 <= i < history.len() ==> !writes(#[trigger] history[i].cmd, key),
    ensures
        last_write(history, key) is None,
    decreases history.len(),
{
    if history.len() > 0 {
        let init = history.drop_last();
        assert forall|i: int| 0 <= i < init.len() implies !writes(#[trigger] init[i].cmd, key) by {
            assert(init[i] == history[i]);
        }
        lemma_never_written(init, key);
        assert(!writes(history[history.len() - 1].cmd, key));
    }
}

/// In whatever order commands from several connections are run one after
/// the other, a read of a key is answered from the last write of that key
/// alone: with the whole value of that write while it has not expired, with
/// nil otherwise. Writes of other keys, before or after, change nothing of it.
pub proof fn law_read_sees_last_write(history: Seq<Run>, key: Seq<u8>, now: u64)
    ensures
        answer(Command::GET(key), replay(history), now) == match last_write(history, key) {
            Some(entry) => if entry.live_at(now) {
                ReplyView::BulkString(entry.value)
            } else {
                ReplyView::Nil
            },
            None => ReplyView::Nil,
        },
{
    lemma_replay_last_write(history, key);
}

/// Writes of two different keys leave the same store in either order.
pub proof fn law_writes_of_distinct_keys_commute(
    entries: Map<Seq<u8>, EntryView>,
    a: Command,
    b: Command,
    at_a: u64,
    at_b: u64,
)
    requires
        a matches Command::SET(key_a, _, _) && b matches Command::SET(key_b, _, _) && key_a
            != key_b,
    ensures
        effect(b, effect(a, entries, at_a), at_b) == effect(a, effect(b, entries, at_b), at_a),
{
    assert(effect(b, effect(a, entries, at_a), at_b) =~= effect(
        a,
        effect(b, entries, at_b),
        at_a,
    ));
}

/// Where one whole frame, or one defect, is followed by more bytes, the
/// first is taken up as if it stood alone and the others after it: the
/// replies come in the order of the frames.
pub proof fn law_pipelining(
    first: Seq<u8>,
    others: Seq<u8>,
    entries: Map<Seq<u8>, EntryView>,
    now: u64,
)
    requires
        turn(first, entries, now) matches Some(t) && t.rest.len() == 0,
    ensures
        turns(first + others, entries, now) == ({
            let t = turn(first, entries, now).unwrap();
            let after = turns(others, t.entries, now);
            Turn { reply: t.reply + after.reply, entries: after.entries, rest: after.rest }
        }),
{
    lemma_decode_bounds(first);
    lemma_decode_stable(first, others);
    assert((first + others).skip(first.len() as int) =~= others);
}

/// The replies to two whole frames that arrive together are the reply to
/// the first and then the reply to the second.
pub proof fn law_two_frames_two_replies(
    first: Seq<u8>,
    second: Seq<u8>,
    entries: Map<Seq<u8>, EntryView>,
    now: u64,
)
    requires
        turn(first, entries, now) matches Some(t) && t.rest.len() == 0,
        turn(second, turn(first, entries, now).unwrap().entries, now) matches Some(t)
            && t.rest.len() == 0,
    ensures
        turns(first + second, entries, now) == ({
            let one = turn(first, entries, now).unwrap();
            let two = turn(second, one.entries, now).unwrap();
            Turn { reply: one.reply + two.reply, entries: two.entries, rest: Seq::empty() }
        }),
{
    let one = turn(first, entries, now).unwrap();
    let two = turn(second, one.entries, now).unwrap();
    law_pipelining(first, second, entries, now);
    lemma_decode_bounds(second);
    assert(two.rest =~= Seq::<u8>::empty());
    lemma_decode_bounds(two.rest);
    let end = turns(two.rest, two.entries, now);
    assert(end == Turn { reply: Seq::empty(), entries: two.entries, rest: two.rest });
    let after = turns(second, one.entries, now);
    assert(after == Turn { reply: two.reply + end.reply, entries: end.entries, rest: end.rest });
    assert(two.reply + Seq::<u8>::empty() =~= two.reply);
}

/// However a stream is cut into reads, the same frames are taken up: what
/// two reads lead to, the second continuing where the first stopped, is what
/// one read of all the bytes leads to.
pub proof fn law_chunking(a: Seq<u8>, b: Seq<u8>, entries: Map<Seq<u8>, EntryView>, now: u64)
    ensures
        turns(a + b, entries, now) == ({
            let one = turns(a, entries, now);
            let two = turns(one.rest + b, one.entries, now);
            Turn { reply: one.reply + two.reply, entries: two.entries, rest: two.rest }
        }),
    decreases a.len(),
{
    let one = turns(a, entries, now);
    let two = turns(one.rest + b, one.entries, now);
    match turn(a, entries, now) {
        None => {
            assert(Seq::<u8>::empty() + two.reply =~= two.reply);
        },
        Some(first) => {
            lemma_turn_progress(a, entries, now);
            lemma_decode_bounds(a);
            lemma_decode_stable(a, b);
            let consumed = decode(a).1 as int;
            assert((a + b).skip(consumed) =~= a.skip(consumed) + b);
            lemma_turn_progress(a + b, entries, now);
            law_chunking(first.rest, b, first.entries, now);
            let inner = turns(first.rest, first.entries, now);
            assert(first.reply + (inner.reply + two.reply) =~= (first.reply + inner.reply)
                + two.reply);
        },
    }
}

/// A frame that arrives in two parts is taken up once, when the second part
/// has come: the first part alone leads to nothing, and with the second part
/// behind it the buffer holds the frame as if it had come in one piece.
pub proof fn law_partial_delivery(
    frame: Seq<u8>,
    cut: int,
    entries: Map<Seq<u8>, EntryView>,
    earlier: u64,
    now: u64,
)
    requires
        turn(frame, entries, now) matches Some(t) && t.rest.len() == 0,
        0 < cut < frame.len(),
    ensures
        react(EventView::Received(frame.take(cut)), Seq::empty(), entries, earlier) == (Reaction {
            action: ActionView::Read,
            entries,
            rest: frame.take(cut),
        }),
        react(EventView::Received(frame.skip(cut)), frame.take(cut), entries, now) == ({
            let t = turn(frame, entries, now).unwrap();
            Reaction { action: ActionView::Write(t.reply), entries: t.entries, rest: Seq::empty() }
        }),
        react(
            EventView::Sent,
            Seq::empty(),
            turn(frame, entries, now).unwrap().entries,
            now,
        ).action == ActionView::Read,
{
    let head = frame.take(cut);
    let tail = frame.skip(cut);
    assert(head + tail =~= frame);
    assert(Seq::<u8>::empty() + head =~= head);
    lemma_decode_bounds(frame);
    lemma_decode_bounds(head);
    if decode(head).0 != Err::<Command, DecodeError>(DecodeError::Incomplete) {
        lemma_decode_stable(head, tail);
    }
    assert(turn(frame, entries, now).unwrap().rest =~= Seq::<u8>::empty());
    lemma_decode_bounds(Seq::<u8>::empty());
}

/// A defect is answered with an error and costs the frames behind it
/// nothing: a command whose frame follows the defect is run and answered as
/// if the defect had not been there.
pub proof fn law_defect_then_command(
    defect: Seq<u8>,
    cmd: Command,
    entries: Map<Seq<u8>, EntryView>,
    now: u64,
)
    requires
        decode(defect).0 is Err,
        decode(defect).1 == defect.len(),
        defect.len() > 0,
    ensures
        turns(defect + request(cmd), entries, now) == (Turn {
            reply: encoding(ReplyView::Error(description(decode(defect).0->Err_0))) + encoding(
                answer(cmd, effect(cmd, entries, now), now),
            ),
            entries: effect(cmd, entries, now),
            rest: Seq::empty(),
        }),
{
    lemma_decode_bounds(defect);
    assert(defect.skip(defect.len() as int) =~= Seq::<u8>::empty());
    lemma_decode_request(cmd, Seq::empty());
    assert(request(cmd) + Seq::<u8>::empty() =~= request(cmd));
    assert(request(cmd).skip(request(cmd).len() as int) =~= Seq::<u8>::empty());
    law_two_frames_two_replies(defect, request(cmd), entries, now);
}

/// A frame whose length line holds a negative number, or no number at all,
/// is answered with an error, and a command whose frame follows it is run
/// and answered as if the defect had not been there.
pub proof fn law_bad_length_then_command(
    count: nat,
    text: Seq<u8>,
    cmd: Command,
    entries: Map<Seq<u8>, EntryView>,
    now: u64,
)
    requires
        count > 0,
        !is_decimal(text),
        forall|i: int| 0 <= i < text.len() ==> text[i] != CR,
    ensures
        decode(opening(count, text)) == (
            Err::<Command, DecodeError>(DecodeError::Malformed),
            opening(count, text).len(),
        ),
        turns(opening(count, text) + request(cmd), entries, now) == (Turn {
            reply: encoding(ReplyView::Error(description(DecodeError::Malformed))) + encoding(
                answer(cmd, effect(cmd, entries, now), now),
            ),
            entries: effect(cmd, entries, now),
            rest: Seq::empty(),
        }),
{
    let defect = opening(count, text);
    lemma_parse_frame_bad_length(count, text, Seq::empty());
    assert(defect + Seq::<u8>::empty() =~= defect);
    law_defect_then_command(defect, cmd, entries, now);
}

/// Over the wire too, a value that is written is read back as it was
/// written, whatever bytes it holds: the frames of a `SET` and of a `GET` of
/// the same key are answered with `OK` and with the value as a bulk string.
pub proof fn law_round_trip_on_the_wire(
    entries: Map<Seq<u8>, EntryView>,
    key: Seq<u8>,
    value: Seq<u8>,
    now: u64,
)
    ensures
        turns(
            request(Command::SET(key, value, None)) + request(Command::GET(key)),
            entries,
            now,
        ) == (Turn {
            reply: encoding(ReplyView::SimpleString(ascii_bytes("OK"@))) + encoding(
                ReplyView::BulkString(value),
            ),
            entries: entries.insert(key, written(value, None, now)),
            rest: Seq::empty(),
        }),
{
    let set = Command::SET(key, value, None);
    let get = Command::GET(key);
    lemma_decode_request(set, Seq::empty());
    lemma_decode_request(get, Seq::empty());
    assert(request(set) + Seq::<u8>::empty() =~= request(set));
    assert(request(get) + Seq::<u8>::empty() =~= request(get));
    assert(request(set).skip(request(set).len() as int) =~= Seq::<u8>::empty());
    assert(request(get).skip(request(get).len() as int) =~= Seq::<u8>::empty());
    law_two_frames_two_replies(request(set), request(get), entries, now);
}

} // verus!
