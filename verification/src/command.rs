//! Commands, and how a frame's arguments are read as one.
//!
//! The first argument names the command, in any case of its letters:
//!
//! | command | arguments                                  |
//! |---------|--------------------------------------------|
//! | `PING`  | none                                       |
//! | `ECHO`  | the message                                |
//! | `SET`   | key and value, optionally `PX` and a number of milliseconds |
//! | `GET`   | the key                                    |

use vstd::prelude::*;
use crate::ascii::{
    Numeral, decimal_digits, decimal_value, eq_ignore_case, is_decimal, is_digit,
    lemma_decimal_round_trip, read_decimal, same_word, upper,
};
use crate::frame::{
    Frame, FrameParse, args_view, frame_bytes, lemma_parse_frame_bounds, lemma_parse_frame_bytes,
    lemma_parse_frame_stable, parse_frame, read_frame,
};

verus! {

/// A decoded command. Keys, values and messages are byte strings; the third
/// field of `SET` is the time to live in milliseconds, if one was asked for.
#[derive(Clone, Debug, PartialEq, Eq)]
pub enum CMD {
    PING,
    ECHO(Vec<u8>),
    SET(Vec<u8>, Vec<u8>, Option<u64>),
    GET(Vec<u8>),
}

/// The mathematical value of a command.
pub enum Command {
    PING,
    ECHO(Seq<u8>),
    SET(Seq<u8>, Seq<u8>, Option<u64>),
    GET(Seq<u8>),
}

impl View for CMD {
    type V = Command;

    open spec fn view(&self) -> Command {
        match *self {
            CMD::PING => Command::PING,
            CMD::ECHO(message) => Command::ECHO(message@),
            CMD::SET(key, value, ttl) => Command::SET(key@, value@, ttl),
            CMD::GET(key) => Command::GET(key@),
        }
    }
}

/// Why the front of a buffer gave no command.
#[derive(Clone, Copy, Debug, PartialEq, Eq, Structural)]
pub enum DecodeError {
    /// The buffer stops inside a frame. Nothing is wrong and nothing is
    /// consumed: the frame may be decoded once more bytes have arrived.
    Incomplete,
    /// The bytes are no frame: a line that is no count or length line, a
    /// count of zero, or a payload that is not followed by CR LF.
    Malformed,
    /// A frame whose first argument names no command, or names one that
    /// does not take that many arguments.
    UnknownCommand,
    /// A command with an argument it cannot take: a `SET` whose option is
    /// not `PX`, or whose number of milliseconds is no number of 64 bits.
    InvalidArgument,
}

/// The commands by name.
#[derive(Clone, Copy, Debug, PartialEq, Eq, Structural)]
pub enum Verb {
    PING,
    ECHO,
    SET,
    GET,
}

impl Verb {
    /// The name of the command, in upper case.
    pub open spec fn word(self) -> Seq<u8> {
        match self {
            Verb::PING => seq!['P' as u8, 'I' as u8, 'N' as u8, 'G' as u8],
            Verb::ECHO => seq!['E' as u8, 'C' as u8, 'H' as u8, 'O' as u8],
            Verb::SET => seq!['S' as u8, 'E' as u8, 'T' as u8],
            Verb::GET => seq!['G' as u8, 'E' as u8, 'T' as u8],
        }
    }
}

/// The option of `SET` that announces a time to live in milliseconds.
pub open spec fn px_word() -> Seq<u8> {
    seq!['P' as u8, 'X' as u8]
}

/// The command that `word` names, if any.
pub open spec fn verb_of(word: Seq<u8>) -> Option<Verb> {
    if same_word(word, Verb::PING.word()) {
        Some(Verb::PING)
    } else if same_word(word, Verb::ECHO.word()) {
        Some(Verb::ECHO)
    } else if same_word(word, Verb::SET.word()) {
        Some(Verb::SET)
    } else if same_word(word, Verb::GET.word()) {
        Some(Verb::GET)
    } else {
        None
    }
}

/// The number of milliseconds that `text` states: an unsigned decimal
/// numeral of at most 64 bits, which a single `+` may precede.
pub open spec fn millis_of(text: Seq<u8>) -> Option<u64> {
    let digits = if text.len() > 0 && text[0] == '+' as u8 {
        text.skip(1)
    } else {
        text
    };
    if is_decimal(digits) && decimal_value(digits) <= u64::MAX {
        Some(decimal_value(digits) as u64)
    } else {
        None
    }
}

/// The command that the arguments of a frame spell.
pub open spec fn command_of(args: Seq<Seq<u8>>) -> Result<Command, DecodeError> {
    if args.len() == 0 {
        Err(DecodeError::UnknownCommand)
    } else {
        let verb = verb_of(args[0]);
        if verb == Some(Verb::PING) && args.len() == 1 {
            Ok(Command::PING)
        } else if verb == Some(Verb::ECHO) && args.len() == 2 {
            Ok(Command::ECHO(args[1]))
        } else if verb == Some(Verb::GET) && args.len() == 2 {
            Ok(Command::GET(args[1]))
        } else if verb == Some(Verb::SET) && args.len() == 3 {
            Ok(Command::SET(args[1], args[2], None))
        } else if verb == Some(Verb::SET) && args.len() == 5 {
            if same_word(args[3], px_word()) {
                match millis_of(args[4]) {
                    Some(ms) => Ok(Command::SET(args[1], args[2], Some(ms))),
                    None => Err(DecodeError::InvalidArgument),
                }
            } else {
                Err(DecodeError::InvalidArgument)
            }
        } else {
            Err(DecodeError::UnknownCommand)
        }
    }
}

/// What the front of a buffer decodes to, and how many of its bytes that
/// takes: nothing for a buffer that stops inside a frame, the whole frame for
/// a command and for a frame that spells none, and for bytes that are no
/// frame what the defect has spent.
pub open spec fn decode(s: Seq<u8>) -> (Result<Command, DecodeError>, nat) {
    match parse_frame(s) {
        FrameParse::Incomplete => (Err(DecodeError::Incomplete), 0),
        FrameParse::Malformed { end } => (Err(DecodeError::Malformed), end as nat),
        FrameParse::Complete { args, end } => (command_of(args), end as nat),
    }
}

/// The mathematical value of a decoding outcome.
pub open spec fn outcome_view(outcome: Result<CMD, DecodeError>) -> Result<Command, DecodeError> {
    match outcome {
        Ok(cmd) => Ok(cmd@),
        Err(e) => Err(e),
    }
}

/// Decoding takes no more bytes than the buffer holds, and takes none
/// exactly when the buffer stops inside a frame.
pub proof fn lemma_decode_bounds(s: Seq<u8>)
    ensures
        decode(s).1 <= s.len(),
        decode(s).1 == 0 <==> decode(s).0 == Err::<Command, DecodeError>(DecodeError::Incomplete),
{
    lemma_parse_frame_bounds(s);
}

/// What a buffer decodes to, unless it stops inside a frame, it still
/// decodes to when more bytes follow it.
pub proof fn lemma_decode_stable(s: Seq<u8>, more: Seq<u8>)
    requires
        decode(s).0 != Err::<Command, DecodeError>(DecodeError::Incomplete),
    ensures
        decode(s + more) == decode(s),
{
    lemma_parse_frame_bounds(s);
    lemma_parse_frame_stable(s, more);
}

/// The arguments by which a peer asks for `cmd`: the command's name in upper
/// case, then its fields, a time to live as `PX` and the shortest numeral.
pub open spec fn args_of(cmd: Command) -> Seq<Seq<u8>> {
    match cmd {
        Command::PING => seq![Verb::PING.word()],
        Command::ECHO(message) => seq![Verb::ECHO.word(), message],
        Command::GET(key) => seq![Verb::GET.word(), key],
        Command::SET(key, value, None) => seq![Verb::SET.word(), key, value],
        Command::SET(key, value, Some(millis)) => seq![
            Verb::SET.word(),
            key,
            value,
            px_word(),
            decimal_digits(millis as nat),
        ],
    }
}

/// The frame by which a peer asks for `cmd`.
pub open spec fn request(cmd: Command) -> Seq<u8> {
    frame_bytes(args_of(cmd))
}

/// Each command's name names that command and no other.
pub proof fn lemma_verb_of_word(verb: Verb)
    ensures
        verb_of(verb.word()) == Some(verb),
{
    let word = verb.word();
    assert(same_word(word, word));
    match verb {
        Verb::PING => {},
        Verb::ECHO => {
            assert(upper(word[0]) != upper(Verb::PING.word()[0]));
        },
        Verb::SET => {},
        Verb::GET => {
            assert(upper(word[0]) != upper(Verb::SET.word()[0]));
        },
    }
}

/// The shortest numeral of a number of milliseconds states that number.
pub proof fn lemma_millis_of_digits(millis: u64)
    ensures
        millis_of(decimal_digits(millis as nat)) == Some(millis),
{
    lemma_decimal_round_trip(millis as nat);
    assert(is_digit(decimal_digits(millis as nat)[0]));
}

/// The arguments that ask for a command spell that command.
pub proof fn lemma_command_of_args(cmd: Command)
    ensures
        command_of(args_of(cmd)) == Ok::<Command, DecodeError>(cmd),
{
    match cmd {
        Command::PING => {
            lemma_verb_of_word(Verb::PING);
        },
        Command::ECHO(_) => {
            lemma_verb_of_word(Verb::ECHO);
        },
        Command::GET(_) => {
            lemma_verb_of_word(Verb::GET);
        },
        Command::SET(_, _, None) => {
            lemma_verb_of_word(Verb::SET);
        },
        Command::SET(_, _, Some(millis)) => {
            lemma_verb_of_word(Verb::SET);
            lemma_millis_of_digits(millis);
            assert(same_word(px_word(), px_word()));
        },
    }
}

/// The frame that asks for a command, followed by anything, decodes to that
/// command and takes the frame's bytes and no others.
pub proof fn lemma_decode_request(cmd: Command, after: Seq<u8>)
    ensures
        decode(request(cmd) + after) == (Ok::<Command, DecodeError>(cmd), request(cmd).len()),
{
    lemma_command_of_args(cmd);
    lemma_parse_frame_bytes(args_of(cmd), after);
}

/// Names the command that `word` spells.
pub fn read_verb(word: &[u8]) -> (verb: Option<Verb>)
    ensures
        verb == verb_of(word@),
{
    let ping: [u8; 4] = ['P' as u8, 'I' as u8, 'N' as u8, 'G' as u8];
    let echo: [u8; 4] = ['E' as u8, 'C' as u8, 'H' as u8, 'O' as u8];
    let set: [u8; 3] = ['S' as u8, 'E' as u8, 'T' as u8];
    let get: [u8; 3] = ['G' as u8, 'E' as u8, 'T' as u8];
    assert(ping@ =~= Verb::PING.word());
    assert(echo@ =~= Verb::ECHO.word());
    assert(set@ =~= Verb::SET.word());
    assert(get@ =~= Verb::GET.word());
    if eq_ignore_case(word, ping.as_slice()) {
        Some(Verb::PING)
    } else if eq_ignore_case(word, echo.as_slice()) {
        Some(Verb::ECHO)
    } else if eq_ignore_case(word, set.as_slice()) {
        Some(Verb::SET)
    } else if eq_ignore_case(word, get.as_slice()) {
        Some(Verb::GET)
    } else {
        None
    }
}

/// Reads a number of milliseconds.
pub fn read_millis(text: &[u8]) -> (ms: Option<u64>)
    ensures
        ms == millis_of(text@),
{
    let digits = if text.len() > 0 && text[0] == '+' as u8 {
        vstd::slice::slice_subrange(text, 1, text.len())
    } else {
        text
    };
    match read_decimal(digits) {
        Numeral::Value(v) => Some(v),
        _ => None,
    }
}

/// Reads the arguments of a frame as a command.
pub fn interpret(args: Vec<Vec<u8>>) -> (r: Result<CMD, DecodeError>)
    ensures
        outcome_view(r) == command_of(args_view(args@)),
{
    let mut args = args;
    let ghost all = args_view(args@);
    let n: usize = args.len();
    if n == 0 {
        return Err(DecodeError::UnknownCommand);
    }
    let verb = read_verb(args[0].as_slice());
    match verb {
        Some(Verb::PING) => {
            if n == 1 {
                return Ok(CMD::PING);
            }
        },
        Some(Verb::ECHO) => {
            if n == 2 {
                let message = args.pop().unwrap();
                return Ok(CMD::ECHO(message));
            }
        },
        Some(Verb::GET) => {
            if n == 2 {
                let key = args.pop().unwrap();
                return Ok(CMD::GET(key));
            }
        },
        Some(Verb::SET) => {
            if n == 3 {
                let value = args.pop().unwrap();
                let key = args.pop().unwrap();
                return Ok(CMD::SET(key, value, None));
            } else if n == 5 {
                let px: [u8; 2] = ['P' as u8, 'X' as u8];
                assert(px@ =~= px_word());
                if !eq_ignore_case(args[3].as_slice(), px.as_slice()) {
                    return Err(DecodeError::InvalidArgument);
                }
                let ttl = match read_millis(args[4].as_slice()) {
                    Some(ms) => ms,
                    None => {
                        return Err(DecodeError::InvalidArgument);
                    },
                };
                args.truncate(3);
                let value = args.pop().unwrap();
                let key = args.pop().unwrap();
                return Ok(CMD::SET(key, value, Some(ttl)));
            }
        },
        None => {},
    }
    Err(DecodeError::UnknownCommand)
}

/// Decodes the command at the front of `resp`.
///
/// Returns the command, or the reason why there is none, together with the
/// number of leading bytes of `resp` that are thereby dealt with. That number
/// is zero exactly when the outcome is `Incomplete`.
pub fn resp_deserialize(resp: &[u8]) -> (out: (Result<CMD, DecodeError>, usize))
    ensures
        (outcome_view(out.0), out.1 as nat) == decode(resp@),
        out.1 <= resp.len(),
        out.1 == 0 <==> out.0 == Err::<CMD, DecodeError>(DecodeError::Incomplete),
{
    match read_frame(resp) {
        Frame::Incomplete => (Err(DecodeError::Incomplete), 0),
        Frame::Malformed(end) => (Err(DecodeError::Malformed), end),
        Frame::Complete(args, end) => {
            let outcome = interpret(args);
            (outcome, end)
        },
    }
}

} // verus!
