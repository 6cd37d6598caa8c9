//! The wire format of a request, read from the front of a byte buffer.
//!
//! A frame is a count line `*<argc>` and then `argc` bulk strings, each a
//! length line `$<len>`, `len` bytes of payload and a line terminator. Lines
//! end in CR LF. A buffer that stops short of what the frame announces is
//! incomplete, never malformed: the same bytes followed by more may still
//! form a frame. A defect is reported only once its place is settled, and with
//! the offset up to which the buffer is spent by it: the end of the defective
//! line, or the end of a payload that is not followed by CR LF.

use vstd::prelude::*;
use vstd::slice::slice_subrange;
use vstd::slice::slice_to_vec;
use crate::ascii::{
    CR, LF, Numeral, crlf, decimal_digits, decimal_value, is_decimal, is_digit,
    lemma_decimal_round_trip, read_decimal,
};

verus! {

/// The byte `*`, which opens a count line.
pub const STAR: u8 = 42;

/// The byte `$`, which opens a length line.
pub const DOLLAR: u8 = 36;

/// Whether a line terminator starts at offset `i` of `s`.
pub open spec fn crlf_at(s: Seq<u8>, i: int) -> bool {
    0 <= i && i + 1 < s.len() && s[i] == CR && s[i + 1] == LF
}

/// The offset of the first line terminator of `s` at or after `from`.
pub open spec fn line_end(s: Seq<u8>, from: int) -> Option<int>
    decreases s.len() - from,
{
    if from < 0 || from + 1 >= s.len() {
        None
    } else if s[from] == CR && s[from + 1] == LF {
        Some(from)
    } else {
        line_end(s, from + 1)
    }
}

/// What the front of a buffer holds where a bulk string is due.
pub enum BulkParse {
    /// More bytes are needed to tell.
    Incomplete,
    /// No bulk string starts here; the buffer is spent up to `end`.
    Malformed { end: int },
    /// A bulk string with this payload, which stops before offset `end`.
    Complete { payload: Seq<u8>, end: int },
}

/// What the front of a buffer holds where a frame is due.
pub enum FrameParse {
    /// More bytes are needed to tell.
    Incomplete,
    /// No frame starts here; the buffer is spent up to `end`.
    Malformed { end: int },
    /// A frame with these arguments, which stops before offset `end`.
    Complete { args: Seq<Seq<u8>>, end: int },
}

/// Whether `line` is `lead` followed by an unsigned decimal numeral.
pub open spec fn is_prefixed_numeral(line: Seq<u8>, lead: u8) -> bool {
    line.len() >= 1 && line[0] == lead && is_decimal(line.skip(1))
}

/// The bulk string that starts at offset `pos` of `s`.
pub open spec fn parse_bulk(s: Seq<u8>, pos: int) -> BulkParse {
    match line_end(s, pos) {
        None => BulkParse::Incomplete,
        Some(e) => {
            let header = s.subrange(pos, e);
            if is_prefixed_numeral(header, DOLLAR) {
                let stop = e + 2 + decimal_value(header.skip(1));
                if s.len() < stop + 2 {
                    BulkParse::Incomplete
                } else if s[stop] == CR && s[stop + 1] == LF {
                    BulkParse::Complete { payload: s.subrange(e + 2, stop), end: stop + 2 }
                } else {
                    BulkParse::Malformed { end: stop }
                }
            } else {
                BulkParse::Malformed { end: e + 2 }
            }
        },
    }
}

/// The `count` bulk strings that start at offset `pos` of `s`, behind the
/// arguments `acc` that were read before them.
pub open spec fn parse_bulks(s: Seq<u8>, pos: int, count: nat, acc: Seq<Seq<u8>>) -> FrameParse
    decreases count,
{
    if count == 0 {
        FrameParse::Complete { args: acc, end: pos }
    } else {
        match parse_bulk(s, pos) {
            BulkParse::Incomplete => FrameParse::Incomplete,
            BulkParse::Malformed { end } => FrameParse::Malformed { end },
            BulkParse::Complete { payload, end } => parse_bulks(
                s,
                end,
                (count - 1) as nat,
                acc.push(payload),
            ),
        }
    }
}

/// The frame at the front of `s`.
pub open spec fn parse_frame(s: Seq<u8>) -> FrameParse {
    match line_end(s, 0) {
        None => FrameParse::Incomplete,
        Some(e) => {
            let header = s.subrange(0, e);
            if is_prefixed_numeral(header, STAR) && decimal_value(header.skip(1)) > 0 {
                parse_bulks(s, e + 2, decimal_value(header.skip(1)), Seq::empty())
            } else {
                FrameParse::Malformed { end: e + 2 }
            }
        },
    }
}

/// The wire form of one bulk string.
pub open spec fn bulk_bytes(payload: Seq<u8>) -> Seq<u8> {
    seq![DOLLAR] + decimal_digits(payload.len()) + crlf() + payload + crlf()
}

/// The wire forms of several bulk strings, one behind the other.
pub open spec fn bulks_bytes(args: Seq<Seq<u8>>) -> Seq<u8>
    decreases args.len(),
{
    if args.len() == 0 {
        Seq::empty()
    } else {
        bulk_bytes(args[0]) + bulks_bytes(args.skip(1))
    }
}

/// The wire form of a frame with the arguments `args`.
pub open spec fn frame_bytes(args: Seq<Seq<u8>>) -> Seq<u8> {
    seq![STAR] + decimal_digits(args.len()) + crlf() + bulks_bytes(args)
}

/// What `read_bulk` found.
#[derive(Debug)]
pub enum Bulk {
    /// More bytes are needed to tell.
    Incomplete,
    /// No bulk string starts here; the buffer is spent up to the offset.
    Malformed(usize),
    /// The payload of a bulk string, and the offset behind it.
    Complete(Vec<u8>, usize),
}

impl View for Bulk {
    type V = BulkParse;

    open spec fn view(&self) -> BulkParse {
        match *self {
            Bulk::Incomplete => BulkParse::Incomplete,
            Bulk::Malformed(end) => BulkParse::Malformed { end: end as int },
            Bulk::Complete(payload, end) => BulkParse::Complete {
                payload: payload@,
                end: end as int,
            },
        }
    }
}

/// The byte strings that a vector of arguments holds.
pub open spec fn args_view(args: Seq<Vec<u8>>) -> Seq<Seq<u8>> {
    Seq::new(args.len(), |i: int| args[i]@)
}

/// What `read_frame` found.
#[derive(Debug)]
pub enum Frame {
    /// More bytes are needed to tell.
    Incomplete,
    /// No frame starts here; the buffer is spent up to the offset.
    Malformed(usize),
    /// The arguments of a frame, and the offset behind it.
    Complete(Vec<Vec<u8>>, usize),
}

impl View for Frame {
    type V = FrameParse;

    open spec fn view(&self) -> FrameParse {
        match *self {
            Frame::Incomplete => FrameParse::Incomplete,
            Frame::Malformed(end) => FrameParse::Malformed { end: end as int },
            Frame::Complete(args, end) => FrameParse::Complete {
                args: args_view(args@),
                end: end as int,
            },
        }
    }
}

/// A line end that `line_end` reports is a line terminator at or after the
/// start, and the first one.
pub proof fn lemma_line_end_is_first(s: Seq<u8>, from: int)
    requires
        0 <= from,
    ensures
        match line_end(s, from) {
            None => forall|j: int| from <= j ==> !crlf_at(s, j),
            Some(e) => from <= e && crlf_at(s, e) && forall|j: int| from <= j < e ==> !crlf_at(s, j),
        },
    decreases s.len() - from,
{
    if from + 1 >= s.len() {
    } else if s[from] == CR && s[from + 1] == LF {
    } else {
        lemma_line_end_is_first(s, from + 1);
    }
}

/// A line terminator that a buffer holds is still its first one when more
/// bytes follow the buffer.
pub proof fn lemma_line_end_stable(s: Seq<u8>, more: Seq<u8>, from: int)
    requires
        line_end(s, from) is Some,
    ensures
        line_end(s + more, from) == line_end(s, from),
    decreases s.len() - from,
{
    if from < 0 || from + 1 >= s.len() {
    } else {
        assert((s + more)[from] == s[from]);
        assert((s + more)[from + 1] == s[from + 1]);
        if s[from] == CR && s[from + 1] == LF {
        } else {
            lemma_line_end_stable(s, more, from + 1);
        }
    }
}

/// Where a bulk string or a defect ends, relative to where it was looked for
/// and to the end of the buffer.
pub proof fn lemma_parse_bulk_bounds(s: Seq<u8>, pos: int)
    requires
        0 <= pos,
    ensures
        match parse_bulk(s, pos) {
            BulkParse::Incomplete => true,
            BulkParse::Malformed { end } => pos < end <= s.len(),
            BulkParse::Complete { payload, end } => pos + 6 <= end <= s.len(),
        },
{
    lemma_line_end_is_first(s, pos);
}

/// A bulk string or a defect that a buffer holds is read the same when more
/// bytes follow the buffer.
pub proof fn lemma_parse_bulk_stable(s: Seq<u8>, more: Seq<u8>, pos: int)
    requires
        0 <= pos,
        !(parse_bulk(s, pos) is Incomplete),
    ensures
        parse_bulk(s + more, pos) == parse_bulk(s, pos),
{
    lemma_line_end_is_first(s, pos);
    lemma_line_end_stable(s, more, pos);
    let e = line_end(s, pos).unwrap();
    assert((s + more).subrange(pos, e) =~= s.subrange(pos, e));
    let header = s.subrange(pos, e);
    if is_prefixed_numeral(header, DOLLAR) {
        let stop = e + 2 + decimal_value(header.skip(1));
        assert((s + more)[stop] == s[stop]);
        assert((s + more)[stop + 1] == s[stop + 1]);
        assert((s + more).subrange(e + 2, stop) =~= s.subrange(e + 2, stop));
    }
}

/// Where a run of bulk strings or a defect in it ends, and how many
/// arguments a whole run gives.
pub proof fn lemma_parse_bulks_bounds(s: Seq<u8>, pos: int, count: nat, acc: Seq<Seq<u8>>)
    requires
        0 <= pos <= s.len(),
    ensures
        match parse_bulks(s, pos, count, acc) {
            FrameParse::Incomplete => true,
            FrameParse::Malformed { end } => pos < end <= s.len(),
            FrameParse::Complete { args, end } => pos <= end <= s.len() && args.len() == acc.len()
                + count,
        },
    decreases count,
{
    if count > 0 {
        lemma_parse_bulk_bounds(s, pos);
        match parse_bulk(s, pos) {
            BulkParse::Complete { payload, end } => {
                lemma_parse_bulks_bounds(s, end, (count - 1) as nat, acc.push(payload));
            },
            _ => {},
        }
    }
}

/// A run of bulk strings or a defect in it is read the same when more bytes
/// follow the buffer.
pub proof fn lemma_parse_bulks_stable(
    s: Seq<u8>,
    more: Seq<u8>,
    pos: int,
    count: nat,
    acc: Seq<Seq<u8>>,
)
    requires
        0 <= pos,
        !(parse_bulks(s, pos, count, acc) is Incomplete),
    ensures
        parse_bulks(s + more, pos, count, acc) == parse_bulks(s, pos, count, acc),
    decreases count,
{
    if count > 0 {
        lemma_parse_bulk_stable(s, more, pos);
        lemma_parse_bulk_bounds(s, pos);
        match parse_bulk(s, pos) {
            BulkParse::Complete { payload, end } => {
                lemma_parse_bulks_stable(s, more, end, (count - 1) as nat, acc.push(payload));
            },
            _ => {},
        }
    }
}

/// A frame or a defect takes at least one byte and no more than the buffer
/// holds, and a frame has at least one argument.
pub proof fn lemma_parse_frame_bounds(s: Seq<u8>)
    ensures
        match parse_frame(s) {
            FrameParse::Incomplete => true,
            FrameParse::Malformed { end } => 0 < end <= s.len(),
            FrameParse::Complete { args, end } => 0 < end <= s.len() && args.len() > 0,
        },
{
    lemma_line_end_is_first(s, 0);
    match line_end(s, 0) {
        Some(e) => {
            let header = s.subrange(0, e);
            if is_prefixed_numeral(header, STAR) && decimal_value(header.skip(1)) > 0 {
                lemma_parse_bulks_bounds(s, e + 2, decimal_value(header.skip(1)), Seq::empty());
            }
        },
        None => {},
    }
}

/// A frame or a defect at the front of a buffer is read the same when more
/// bytes follow the buffer: what is decided is never revised.
pub proof fn lemma_parse_frame_stable(s: Seq<u8>, more: Seq<u8>)
    requires
        !(parse_frame(s) is Incomplete),
    ensures
        parse_frame(s + more) == parse_frame(s),
{
    lemma_line_end_is_first(s, 0);
    lemma_line_end_stable(s, more, 0);
    let e = line_end(s, 0).unwrap();
    assert((s + more).subrange(0, e) =~= s.subrange(0, e));
    let header = s.subrange(0, e);
    if is_prefixed_numeral(header, STAR) && decimal_value(header.skip(1)) > 0 {
        lemma_parse_bulks_stable(s, more, e + 2, decimal_value(header.skip(1)), Seq::empty());
    }
}

/// The first line terminator behind a stretch without carriage return is
/// the one at the end of the stretch.
pub proof fn lemma_line_end_found(s: Seq<u8>, from: int, e: int)
    requires
        0 <= from <= e,
        crlf_at(s, e),
        forall|j: int| from <= j < e ==> s[j] != CR,
    ensures
        line_end(s, from) == Some(e),
    decreases e - from,
{
    if from < e {
        lemma_line_end_found(s, from + 1, e);
    }
}

/// A count or length line, written with the shortest numeral of `n` behind
/// `lead`, is read back as such and gives `n`.
proof fn lemma_header_line(s: Seq<u8>, pos: int, lead: u8, n: nat)
    requires
        0 <= pos,
        lead != CR,
        pos + 1 + decimal_digits(n).len() + 2 <= s.len(),
        s.subrange(pos, pos + 1 + decimal_digits(n).len() + 2) == seq![lead] + decimal_digits(n)
            + crlf(),
    ensures
        line_end(s, pos) == Some(pos + 1 + decimal_digits(n).len()),
        is_prefixed_numeral(s.subrange(pos, pos + 1 + decimal_digits(n).len()), lead),
        decimal_value(s.subrange(pos, pos + 1 + decimal_digits(n).len()).skip(1)) == n,
{
    let digits = decimal_digits(n);
    let e = pos + 1 + digits.len();
    let line = seq![lead] + digits + crlf();
    lemma_decimal_round_trip(n);
    assert forall|j: int| pos <= j < e + 2 implies s[j] == line[j - pos] by {
        assert(s.subrange(pos, e + 2)[j - pos] == s[j]);
    }
    assert(s[e] == line[e - pos]);
    assert(s[e + 1] == line[e + 1 - pos]);
    assert forall|j: int| pos <= j < e implies s[j] != CR by {
        assert(s[j] == line[j - pos]);
        if j > pos {
            assert(line[j - pos] == digits[j - pos - 1]);
            assert(is_digit(digits[j - pos - 1]));
        }
    }
    lemma_line_end_found(s, pos, e);
    let header = s.subrange(pos, e);
    assert(header[0] == s[pos]);
    assert(header.skip(1) =~= digits) by {
        assert forall|k: int| 0 <= k < digits.len() implies header.skip(1)[k] == digits[k] by {
            assert(header.skip(1)[k] == s[pos + 1 + k]);
            assert(s[pos + 1 + k] == line[1 + k]);
        }
    }
}

/// The wire form of a bulk string, wherever it stands in a buffer, is read
/// back as that bulk string.
pub proof fn lemma_parse_bulk_bytes(before: Seq<u8>, payload: Seq<u8>, after: Seq<u8>)
    ensures
        parse_bulk(before + bulk_bytes(payload) + after, before.len() as int)
            == (BulkParse::Complete {
            payload,
            end: (before.len() + bulk_bytes(payload).len()) as int,
        }),
{
    let s = before + bulk_bytes(payload) + after;
    let pos = before.len() as int;
    let digits = decimal_digits(payload.len());
    let e = pos + 1 + digits.len();
    assert(s.subrange(pos, e + 2) =~= seq![DOLLAR] + digits + crlf());
    lemma_header_line(s, pos, DOLLAR, payload.len());
    let stop = e + 2 + payload.len();
    assert(s.subrange(e + 2, stop) =~= payload);
    assert(s[stop] == CR);
    assert(s[stop + 1] == LF);
}

/// The wire forms of several bulk strings, wherever they stand in a buffer,
/// are read back as those bulk strings.
pub proof fn lemma_parse_bulks_bytes(
    before: Seq<u8>,
    args: Seq<Seq<u8>>,
    after: Seq<u8>,
    acc: Seq<Seq<u8>>,
)
    ensures
        parse_bulks(before + bulks_bytes(args) + after, before.len() as int, args.len(), acc)
            == (FrameParse::Complete {
            args: acc + args,
            end: (before.len() + bulks_bytes(args).len()) as int,
        }),
    decreases args.len(),
{
    let s = before + bulks_bytes(args) + after;
    if args.len() == 0 {
        assert(acc + args =~= acc);
    } else {
        let first = bulk_bytes(args[0]);
        let rest = args.skip(1);
        assert(s =~= before + first + (bulks_bytes(rest) + after));
        lemma_parse_bulk_bytes(before, args[0], bulks_bytes(rest) + after);
        assert(s =~= (before + first) + bulks_bytes(rest) + after);
        lemma_parse_bulks_bytes(before + first, rest, after, acc.push(args[0]));
        assert(acc.push(args[0]) + rest =~= acc + args);
    }
}

/// The wire form of a frame, followed by anything, is read back as that
/// frame and nothing more.
pub proof fn lemma_parse_frame_bytes(args: Seq<Seq<u8>>, after: Seq<u8>)
    requires
        args.len() > 0,
    ensures
        parse_frame(frame_bytes(args) + after) == (FrameParse::Complete {
            args,
            end: frame_bytes(args).len() as int,
        }),
{
    let s = frame_bytes(args) + after;
    let digits = decimal_digits(args.len());
    let e: int = (1 + digits.len()) as int;
    let head = seq![STAR] + digits + crlf();
    assert(s.subrange(0, e + 2) =~= head);
    lemma_header_line(s, 0, STAR, args.len());
    assert(s =~= head + bulks_bytes(args) + after);
    lemma_parse_bulks_bytes(head, args, after, Seq::empty());
    assert(Seq::<Seq<u8>>::empty() + args =~= args);
}

/// The frame that a count line and a length line open, the length line
/// holding `text` where the length is due.
pub open spec fn opening(count: nat, text: Seq<u8>) -> Seq<u8> {
    seq![STAR] + decimal_digits(count) + crlf() + seq![DOLLAR] + text + crlf()
}

/// A length line whose text is no numeral, be it a negative number or no
/// number at all, makes a defect of the frame, which ends where that line
/// ends, whatever follows.
pub proof fn lemma_parse_frame_bad_length(count: nat, text: Seq<u8>, after: Seq<u8>)
    requires
        count > 0,
        !is_decimal(text),
        forall|i: int| 0 <= i < text.len() ==> text[i] != CR,
    ensures
        parse_frame(opening(count, text) + after) == (FrameParse::Malformed {
            end: opening(count, text).len() as int,
        }),
{
    let s = opening(count, text) + after;
    let digits = decimal_digits(count);
    let e: int = (1 + digits.len()) as int;
    assert(s.subrange(0, e + 2) =~= seq![STAR] + digits + crlf());
    lemma_header_line(s, 0, STAR, count);
    let pos = e + 2;
    let stop = pos + 1 + text.len();
    assert(s[pos] == DOLLAR);
    assert(s[stop] == CR);
    assert(s[stop + 1] == LF);
    assert forall|j: int| pos <= j < stop implies s[j] != CR by {
        if j > pos {
            assert(s[j] == text[j - pos - 1]);
        }
    }
    lemma_line_end_found(s, pos, stop);
    let header = s.subrange(pos, stop);
    assert(header.skip(1) =~= text);
}

/// Finds the first line terminator of `s` at or after `from`.
pub fn find_line_end(s: &[u8], from: usize) -> (r: Option<usize>)
    ensures
        r is None <==> line_end(s@, from as int) is None,
        r matches Some(e) ==> line_end(s@, from as int) == Some(e as int) && from <= e && e + 2
            <= s.len(),
{
    if from >= s.len() {
        return None;
    }
    let mut i: usize = from;
    while i < s.len() && i + 1 < s.len()
        invariant
            from <= i <= s.len(),
            line_end(s@, from as int) == line_end(s@, i as int),
        decreases s.len() - i,
    {
        if s[i] == CR && s[i + 1] == LF {
            return Some(i);
        }
        i = i + 1;
    }
    None
}

/// Reads the bulk string that starts at offset `pos` of `s`.
pub fn read_bulk(s: &[u8], pos: usize) -> (r: Bulk)
    ensures
        r@ == parse_bulk(s@, pos as int),
        r matches Bulk::Malformed(end) ==> pos < end <= s.len(),
        r matches Bulk::Complete(_, end) ==> pos + 6 <= end <= s.len(),
{
    let e: usize = match find_line_end(s, pos) {
        None => {
            return Bulk::Incomplete;
        },
        Some(e) => e,
    };
    let ghost header = s@.subrange(pos as int, e as int);
    if e == pos || s[pos] != DOLLAR {
        return Bulk::Malformed(e + 2);
    }
    let digits = slice_subrange(s, pos + 1, e);
    assert(digits@ =~= header.skip(1));
    let start: usize = e + 2;
    match read_decimal(digits) {
        Numeral::Invalid => Bulk::Malformed(start),
        Numeral::TooLarge => Bulk::Incomplete,
        Numeral::Value(v) => {
            let room: usize = s.len() - start;
            if room < 2 || v > (room - 2) as u64 {
                return Bulk::Incomplete;
            }
            let stop: usize = start + v as usize;
            if s[stop] == CR && s[stop + 1] == LF {
                let payload = slice_to_vec(slice_subrange(s, start, stop));
                Bulk::Complete(payload, stop + 2)
            } else {
                Bulk::Malformed(stop)
            }
        },
    }
}

/// Reads the frame at the front of `s`.
pub fn read_frame(s: &[u8]) -> (r: Frame)
    ensures
        r@ == parse_frame(s@),
        r matches Frame::Malformed(end) ==> 0 < end <= s.len(),
        r matches Frame::Complete(args, end) ==> 0 < end <= s.len() && args.len() > 0,
{
    let e: usize = match find_line_end(s, 0) {
        None => {
            return Frame::Incomplete;
        },
        Some(e) => e,
    };
    let ghost header = s@.subrange(0, e as int);
    if e == 0 || s[0] != STAR {
        return Frame::Malformed(e + 2);
    }
    let digits = slice_subrange(s, 1, e);
    assert(digits@ =~= header.skip(1));
    let ghost total: nat = decimal_value(header.skip(1));
    // A count beyond the address space is cut to its largest value: so many
    // bulk strings fit in no buffer, and the loop below leaves before then.
    let count: usize = match read_decimal(digits) {
        Numeral::Invalid => {
            return Frame::Malformed(e + 2);
        },
        Numeral::TooLarge => usize::MAX,
        Numeral::Value(v) => {
            if v == 0 {
                return Frame::Malformed(e + 2);
            } else if v > usize::MAX as u64 {
                usize::MAX
            } else {
                v as usize
            }
        },
    };
    let mut args: Vec<Vec<u8>> = Vec::new();
    let mut pos: usize = e + 2;
    let mut i: usize = 0;
    assert(args_view(args@) =~= Seq::<Seq<u8>>::empty());
    while i < count
        invariant
            i <= count <= total,
            count == total || count == usize::MAX,
            0 < count,
            i < pos <= s.len(),
            args.len() == i,
            parse_frame(s@) == parse_bulks(s@, pos as int, (total - i) as nat, args_view(args@)),
        decreases count - i,
    {
        match read_bulk(s, pos) {
            Bulk::Incomplete => {
                return Frame::Incomplete;
            },
            Bulk::Malformed(end) => {
                return Frame::Malformed(end);
            },
            Bulk::Complete(payload, end) => {
                assert(args_view(args@.push(payload)) =~= args_view(args@).push(payload@));
                args.push(payload);
                pos = end;
            },
        }
        i = i + 1;
    }
    Frame::Complete(args, pos)
}

} // verus!
