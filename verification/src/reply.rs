//! Replies and their wire form.

use vstd::prelude::*;
use crate::ascii::{
    CR, LF, ascii_bytes, crlf, decimal_digits, push_bytes, push_decimal, text_bytes,
};
use crate::command::DecodeError;
use crate::frame::DOLLAR;

verus! {

/// The byte `+`, which opens a simple string.
pub const PLUS: u8 = 43;

/// The byte `-`, which opens an error.
pub const MINUS: u8 = 45;

/// What the server answers to one frame.
#[derive(Clone, Debug, PartialEq, Eq)]
pub enum Reply {
    /// A short text, sent on one line as it is.
    SimpleString(Vec<u8>),
    /// A byte string, sent behind its length.
    BulkString(Vec<u8>),
    /// The absence of a value.
    Nil,
    /// The reason why a frame was not executed, sent on one line as it is.
    Error(Vec<u8>),
}

/// The mathematical value of a reply.
pub enum ReplyView {
    SimpleString(Seq<u8>),
    BulkString(Seq<u8>),
    Nil,
    Error(Seq<u8>),
}

impl View for Reply {
    type V = ReplyView;

    open spec fn view(&self) -> ReplyView {
        match *self {
            Reply::SimpleString(text) => ReplyView::SimpleString(text@),
            Reply::BulkString(bytes) => ReplyView::BulkString(bytes@),
            Reply::Nil => ReplyView::Nil,
            Reply::Error(message) => ReplyView::Error(message@),
        }
    }
}

/// The wire form of a reply. Nothing is escaped: a bulk string may hold any
/// bytes, its length tells where it ends.
pub open spec fn encoding(reply: ReplyView) -> Seq<u8> {
    match reply {
        ReplyView::SimpleString(text) => seq![PLUS] + text + crlf(),
        ReplyView::BulkString(bytes) => seq![DOLLAR] + decimal_digits(bytes.len()) + crlf() + bytes
            + crlf(),
        ReplyView::Nil => seq![DOLLAR, MINUS, '1' as u8] + crlf(),
        ReplyView::Error(message) => seq![MINUS] + message + crlf(),
    }
}

/// The text by which a decoding failure is reported to the peer.
pub open spec fn description(e: DecodeError) -> Seq<u8> {
    match e {
        DecodeError::Incomplete => ascii_bytes("ERR incomplete frame"@),
        DecodeError::Malformed => ascii_bytes("ERR malformed frame"@),
        DecodeError::UnknownCommand => ascii_bytes("ERR unknown command"@),
        DecodeError::InvalidArgument => ascii_bytes("ERR invalid argument"@),
    }
}

impl Reply {
    /// Serialises the reply.
    pub fn encode(&self) -> (out: Vec<u8>)
        ensures
            out@ == encoding(self@),
    {
        let mut out: Vec<u8> = Vec::new();
        match self {
            Reply::SimpleString(text) => {
                out.push(PLUS);
                push_bytes(&mut out, text.as_slice());
            },
            Reply::BulkString(bytes) => {
                out.push(DOLLAR);
                push_decimal(&mut out, bytes.len());
                out.push(CR);
                out.push(LF);
                push_bytes(&mut out, bytes.as_slice());
            },
            Reply::Nil => {
                out.push(DOLLAR);
                out.push(MINUS);
                out.push('1' as u8);
            },
            Reply::Error(message) => {
                out.push(MINUS);
                push_bytes(&mut out, message.as_slice());
            },
        }
        out.push(CR);
        out.push(LF);
        assert(out@ =~= encoding(self@));
        out
    }

    /// The reply that reports a decoding failure.
    pub fn failure(e: DecodeError) -> (reply: Reply)
        ensures
            reply@ == ReplyView::Error(description(e)),
    {
        let text = match e {
            DecodeError::Incomplete => {
                proof {
                    reveal_strlit("ERR incomplete frame");
                }
                text_bytes("ERR incomplete frame")
            },
            DecodeError::Malformed => {
                proof {
                    reveal_strlit("ERR malformed frame");
                }
                text_bytes("ERR malformed frame")
            },
            DecodeError::UnknownCommand => {
                proof {
                    reveal_strlit("ERR unknown command");
                }
                text_bytes("ERR unknown command")
            },
            DecodeError::InvalidArgument => {
                proof {
                    reveal_strlit("ERR invalid argument");
                }
                text_bytes("ERR invalid argument")
            },
        };
        Reply::Error(text)
    }
}

} // verus!
