//! Reply values and their byte forms: the subset of RESP the server emits.

use vstd::prelude::*;
use vstd::string::StringSliceAdditionalSpecFns;
use crate::proto::crlf;
use crate::proto::dec_digits;
use crate::proto::push_bytes;
use crate::proto::push_crlf;
use crate::proto::push_dec_digits;

verus! {

/// One reply: a simple string (`OK`, `PONG`), a binary-safe bulk string, the
/// null marker, or an error line.
pub enum Reply {
    SimpleString { value: Vec<u8> },
    BulkString { value: Vec<u8> },
    Null,
    Error { value: Vec<u8> },
}

/// The mathematical value of a `Reply`.
pub enum ReplyView {
    SimpleString { value: Seq<u8> },
    BulkString { value: Seq<u8> },
    Null,
    Error { value: Seq<u8> },
}

impl View for Reply {
    type V = ReplyView;

    open spec fn view(&self) -> ReplyView {
        match self {
            Reply::SimpleString { value } => ReplyView::SimpleString { value: value@ },
            Reply::BulkString { value } => ReplyView::BulkString { value: value@ },
            Reply::Null => ReplyView::Null,
            Reply::Error { value } => ReplyView::Error { value: value@ },
        }
    }
}

/// The byte form of a reply: `+s\r\n`, `$n\r\nb\r\n`, `_\r\n` or `-s\r\n`.
pub open spec fn spec_encode_reply(r: ReplyView) -> Seq<u8> {
    match r {
        ReplyView::SimpleString { value } => seq![43u8] + value + crlf(),
        ReplyView::BulkString { value } => seq![36u8] + dec_digits(value.len()) + crlf() + value + crlf(),
        ReplyView::Null => seq![95u8] + crlf(),
        ReplyView::Error { value } => seq![45u8] + value + crlf(),
    }
}

/// Encodes one reply to its byte form.
pub fn encode_reply(r: &Reply) -> (out: Vec<u8>)
    ensures
        out@ == spec_encode_reply(r@),
{
    match r {
        Reply::SimpleString { value } => {
            let mut out: Vec<u8> = Vec::new();
            out.push(43);
            push_bytes(&mut out, value.as_slice());
            push_crlf(&mut out);
            proof {
                assert(Seq::<u8>::empty().push(43u8) + value@ + crlf() =~= spec_encode_reply(r@));
            }
            out
        },
        Reply::BulkString { value } => get_bulk_string(value),
        Reply::Null => get_null_string(),
        Reply::Error { value } => {
            let mut out: Vec<u8> = Vec::new();
            out.push(45);
            push_bytes(&mut out, value.as_slice());
            push_crlf(&mut out);
            proof {
                assert(Seq::<u8>::empty().push(45u8) + value@ + crlf() =~= spec_encode_reply(r@));
            }
            out
        },
    }
}

/// The byte form of a bulk-string reply carrying `value`.
pub fn get_bulk_string(value: &Vec<u8>) -> (out: Vec<u8>)
    ensures
        out@ == spec_encode_reply(ReplyView::BulkString { value: value@ }),
{
    let mut out: Vec<u8> = Vec::new();
    out.push(36);
    push_dec_digits(&mut out, value.len() as u64);
    push_crlf(&mut out);
    push_bytes(&mut out, value.as_slice());
    push_crlf(&mut out);
    proof {
        assert((value.len() as u64) as nat == value@.len());
        assert(Seq::<u8>::empty().push(36u8) + dec_digits(value@.len()) + crlf() + value@ + crlf()
            =~= spec_encode_reply(ReplyView::BulkString { value: value@ }));
    }
    out
}

/// The byte form of the null reply, `_\r\n`.
pub fn get_null_string() -> (out: Vec<u8>)
    ensures
        out@ == spec_encode_reply(ReplyView::Null),
{
    let mut out: Vec<u8> = Vec::new();
    out.push(95);
    push_crlf(&mut out);
    proof {
        assert(Seq::<u8>::empty().push(95u8) + crlf() =~= spec_encode_reply(ReplyView::Null));
    }
    out
}

/// The byte form of a simple-string reply carrying `value`.
pub fn get_simple_string(value: &str) -> (out: Vec<u8>)
    ensures
        out@ == spec_encode_reply(ReplyView::SimpleString { value: value.spec_bytes() }),
{
    let mut out: Vec<u8> = Vec::new();
    out.push(43);
    push_bytes(&mut out, value.as_bytes());
    push_crlf(&mut out);
    proof {
        assert(Seq::<u8>::empty().push(43u8) + value.spec_bytes() + crlf()
            =~= spec_encode_reply(ReplyView::SimpleString { value: value.spec_bytes() }));
    }
    out
}

/// The message of the error sent for a malformed argument of `command`.
pub open spec fn invalid_arg_msg(command: Seq<u8>) -> Seq<u8> {
    "ERR invalid argument for '".spec_bytes() + command + "' command".spec_bytes()
}

/// The message of the error sent for a wrong argument count of `command`.
pub open spec fn wrong_number_args_msg(command: Seq<u8>) -> Seq<u8> {
    "ERR wrong number of arguments for '".spec_bytes() + command + "' command".spec_bytes()
}

/// An `Error` reply for a malformed argument of `command`.
pub fn invalid_arg(command: &str) -> (r: Reply)
    ensures
        r@ == (ReplyView::Error { value: invalid_arg_msg(command.spec_bytes()) }),
{
    let mut msg: Vec<u8> = Vec::new();
    push_bytes(&mut msg, "ERR invalid argument for '".as_bytes());
    push_bytes(&mut msg, command.as_bytes());
    push_bytes(&mut msg, "' command".as_bytes());
    proof {
        assert(Seq::<u8>::empty() + "ERR invalid argument for '".spec_bytes() + command.spec_bytes()
            + "' command".spec_bytes() =~= invalid_arg_msg(command.spec_bytes()));
    }
    Reply::Error { value: msg }
}

/// An `Error` reply for a wrong argument count of `command`.
pub fn wrong_number_args(command: &str) -> (r: Reply)
    ensures
        r@ == (ReplyView::Error { value: wrong_number_args_msg(command.spec_bytes()) }),
{
    let mut msg: Vec<u8> = Vec::new();
    push_bytes(&mut msg, "ERR wrong number of arguments for '".as_bytes());
    push_bytes(&mut msg, command.as_bytes());
    push_bytes(&mut msg, "' command".as_bytes());
    proof {
        assert(Seq::<u8>::empty() + "ERR wrong number of arguments for '".spec_bytes() + command.spec_bytes()
            + "' command".spec_bytes() =~= wrong_number_args_msg(command.spec_bytes()));
    }
    Reply::Error { value: msg }
}

/// A `SimpleString` reply carrying the given text.
pub fn simple_reply(value: &str) -> (r: Reply)
    ensures
        r@ == (ReplyView::SimpleString { value: value.spec_bytes() }),
{
    let mut v: Vec<u8> = Vec::new();
    push_bytes(&mut v, value.as_bytes());
    proof {
        assert(Seq::<u8>::empty() + value.spec_bytes() =~= value.spec_bytes());
    }
    Reply::SimpleString { value: v }
}

/// An `Error` reply carrying the given message text.
pub fn error_reply(message: &str) -> (r: Reply)
    ensures
        r@ == (ReplyView::Error { value: message.spec_bytes() }),
{
    let mut msg: Vec<u8> = Vec::new();
    push_bytes(&mut msg, message.as_bytes());
    proof {
        assert(Seq::<u8>::empty() + message.spec_bytes() =~= message.spec_bytes());
    }
    Reply::Error { value: msg }
}

} // verus!
