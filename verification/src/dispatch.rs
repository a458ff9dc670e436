//! The command dispatcher: executes decoded commands against the keyspace
//! under the `SET` option semantics and shapes the replies.

use vstd::prelude::*;
use vstd::string::StringSliceAdditionalSpecFns;
use crate::keyspace::EntryView;
use crate::keyspace::Keyspace;
use crate::keyspace::SetOutcome;
use crate::keyspace::clone_bytes;
use crate::keyspace::spec_get;
use crate::keyspace::spec_get_effect;
use crate::keyspace::spec_set_applies;
use crate::proto::Command;
use crate::proto::CommandView;
use crate::proto::all_digits;
use crate::proto::cmd_view;
use crate::proto::cmd_views;
use crate::proto::dec_value;
use crate::proto::lemma_cmd_views_props;
use crate::proto::ParserError;
use crate::proto::is_incomplete;
use crate::proto::parse_u64_digits;
use crate::proto::spec_encode;
use crate::proto::spec_encode_list;
use crate::proto::spec_parse;
use crate::proto::wf_cmd;
use crate::reply::Reply;
use crate::reply::ReplyView;
use crate::reply::error_reply;
use crate::reply::invalid_arg;
use crate::reply::invalid_arg_msg;
use crate::reply::spec_encode_reply;
use crate::reply::simple_reply;
use crate::reply::wrong_number_args;
use crate::reply::wrong_number_args_msg;

verus! {

/// ASCII lowercase of one byte.
pub open spec fn lower_byte(b: u8) -> u8 {
    if 65 <= b <= 90 {
        (b + 32) as u8
    } else {
        b
    }
}

/// ASCII lowercase of a byte string: how command and option names are
/// compared.
pub open spec fn lower_seq(s: Seq<u8>) -> Seq<u8> {
    s.map_values(|b: u8| lower_byte(b))
}

/// ASCII-lowercases a byte string.
pub fn to_lowercase(v: &Vec<u8>) -> (r: Vec<u8>)
    ensures
        r@ == lower_seq(v@),
{
    let mut out: Vec<u8> = Vec::new();
    let mut i: usize = 0;
    #[verifier::loop_isolation(false)]
    while i < v.len()
        invariant
            i <= v@.len(),
            out@ == lower_seq(v@).take(i as int),
        decreases v@.len() - i,
    {
        let b = v[i];
        let lb: u8 = if 65 <= b && b <= 90 {
            b + 32
        } else {
            b
        };
        proof {
            assert(lower_seq(v@).take(i + 1) =~= lower_seq(v@).take(i as int).push(lower_byte(v@[i as int])));
        }
        out.push(lb);
        i = i + 1;
    }
    proof {
        assert(lower_seq(v@).take(v@.len() as int) =~= lower_seq(v@));
    }
    out
}

/// Byte-slice equality.
pub fn slices_eq(a: &[u8], b: &[u8]) -> (r: bool)
    ensures
        r == (a@ == b@),
{
    if a.len() != b.len() {
        return false;
    }
    let mut i: usize = 0;
    #[verifier::loop_isolation(false)]
    while i < a.len()
        invariant
            i <= a@.len(),
            a@.len() == b@.len(),
            forall|j: int| 0 <= j < i ==> a@[j] == b@[j],
        decreases a@.len() - i,
    {
        if a[i] != b[i] {
            return false;
        }
        i = i + 1;
    }
    proof {
        assert(a@ =~= b@);
    }
    true
}

/// `now + delta` milliseconds, saturating at the largest representable
/// instant.
pub open spec fn sat_add(now: u64, delta: nat) -> u64 {
    if now + delta > u64::MAX {
        u64::MAX
    } else {
        (now + delta) as u64
    }
}

/// The `SET` option grammar, applied left to right from position `i`:
/// `EX seconds` and `PX milliseconds` set the expiry relative to `now`,
/// `NX`/`XX` guard the write, `GET` asks for the previous value. A missing or
/// unparsable companion number is an error; unrecognised tokens are skipped.
pub open spec fn spec_options(values: Seq<CommandView>, i: int, now: u64, exp: Option<u64>, nx: bool, xx: bool, get: bool) -> Option<(Option<u64>, bool, bool, bool)>
    decreases values.len() - i,
{
    if i >= values.len() {
        Some((exp, nx, xx, get))
    } else {
        match values[i] {
            CommandView::BulkString { value: t } => {
                let lt = lower_seq(t);
                if lt == "ex".spec_bytes() || lt == "px".spec_bytes() {
                    if i + 1 >= values.len() {
                        None
                    } else {
                        match values[i + 1] {
                            CommandView::BulkString { value: num } => {
                                if num.len() > 0 && all_digits(num) && dec_value(num) <= u64::MAX {
                                    let ms: nat = if lt == "px".spec_bytes() {
                                        dec_value(num)
                                    } else {
                                        dec_value(num) * 1000
                                    };
                                    spec_options(values, i + 2, now, Some(sat_add(now, ms)), nx, xx, get)
                                } else {
                                    None
                                }
                            },
                            _ => None,
                        }
                    }
                } else if lt == "nx".spec_bytes() {
                    spec_options(values, i + 1, now, exp, true, xx, get)
                } else if lt == "xx".spec_bytes() {
                    spec_options(values, i + 1, now, exp, nx, true, get)
                } else if lt == "get".spec_bytes() {
                    spec_options(values, i + 1, now, exp, nx, xx, true)
                } else {
                    spec_options(values, i + 1, now, exp, nx, xx, get)
                }
            },
            _ => spec_options(values, i + 1, now, exp, nx, xx, get),
        }
    }
}

/// The reply to `PING`.
pub open spec fn spec_ping(values: Seq<CommandView>) -> ReplyView {
    if values.len() != 1 {
        ReplyView::Error { value: wrong_number_args_msg("ping".spec_bytes()) }
    } else {
        ReplyView::SimpleString { value: "PONG".spec_bytes() }
    }
}

/// The reply to `ECHO arg`.
pub open spec fn spec_echo(values: Seq<CommandView>) -> ReplyView {
    if values.len() != 2 {
        ReplyView::Error { value: wrong_number_args_msg("echo".spec_bytes()) }
    } else {
        match values[1] {
            CommandView::BulkString { value } => ReplyView::BulkString { value },
            _ => ReplyView::Error { value: invalid_arg_msg("echo".spec_bytes()) },
        }
    }
}

/// The reply to `GET key` and the keyspace it leaves behind.
pub open spec fn spec_exec_get(m: Map<Seq<u8>, EntryView>, values: Seq<CommandView>, now: u64) -> (ReplyView, Map<Seq<u8>, EntryView>) {
    if values.len() != 2 {
        (ReplyView::Error { value: wrong_number_args_msg("get".spec_bytes()) }, m)
    } else {
        match values[1] {
            CommandView::BulkString { value: k } => {
                let rep = match spec_get(m, k, now) {
                    Some(v) => ReplyView::BulkString { value: v },
                    None => ReplyView::Null,
                };
                (rep, spec_get_effect(m, k, now))
            },
            _ => (ReplyView::Error { value: invalid_arg_msg("get".spec_bytes()) }, m),
        }
    }
}

/// The reply to `SET key value [options]` and the keyspace it leaves behind.
pub open spec fn spec_exec_set(m: Map<Seq<u8>, EntryView>, values: Seq<CommandView>, now: u64) -> (ReplyView, Map<Seq<u8>, EntryView>) {
    if values.len() < 3 {
        (ReplyView::Error { value: wrong_number_args_msg("set".spec_bytes()) }, m)
    } else {
        match (values[1], values[2]) {
            (CommandView::BulkString { value: k }, CommandView::BulkString { value: v }) => {
                match spec_options(values, 3, now, None, false, false, false) {
                    None => (ReplyView::Error { value: invalid_arg_msg("set".spec_bytes()) }, m),
                    Some((exp, nx, xx, get)) => {
                        let applied = spec_set_applies(m, k, now, nx, xx);
                        let prev = spec_get(m, k, now);
                        let m2 = if applied {
                            m.insert(k, EntryView { value: v, expiry: exp })
                        } else {
                            spec_get_effect(m, k, now)
                        };
                        let rep = if !applied {
                            ReplyView::Null
                        } else if get {
                            match prev {
                                Some(p) => ReplyView::BulkString { value: p },
                                None => ReplyView::Null,
                            }
                        } else {
                            ReplyView::SimpleString { value: "OK".spec_bytes() }
                        };
                        (rep, m2)
                    },
                }
            },
            _ => (ReplyView::Error { value: invalid_arg_msg("set".spec_bytes()) }, m),
        }
    }
}

/// One command executed against the keyspace: the reply written back and the
/// keyspace left behind. Command names are matched case-insensitively; a
/// request that is not an array of bulk strings is rejected.
pub open spec fn spec_execute(m: Map<Seq<u8>, EntryView>, c: CommandView, now: u64) -> (ReplyView, Map<Seq<u8>, EntryView>) {
    match c {
        CommandView::Array { values } => {
            if values.len() == 0 {
                (ReplyView::Error { value: "ERR empty command".spec_bytes() }, m)
            } else {
                match values[0] {
                    CommandView::BulkString { value: name } => {
                        let ln = lower_seq(name);
                        if ln == "ping".spec_bytes() {
                            (spec_ping(values), m)
                        } else if ln == "echo".spec_bytes() {
                            (spec_echo(values), m)
                        } else if ln == "get".spec_bytes() {
                            spec_exec_get(m, values, now)
                        } else if ln == "set".spec_bytes() {
                            spec_exec_set(m, values, now)
                        } else {
                            (ReplyView::Error { value: "ERR unsupported command".spec_bytes() }, m)
                        }
                    },
                    _ => (ReplyView::Error { value: "ERR unsupported command".spec_bytes() }, m),
                }
            }
        },
        _ => (ReplyView::Error { value: "ERR unsupported command".spec_bytes() }, m),
    }
}

/// Reads the `SET` options from positions 3 onward.
fn parse_set_options(values: &Vec<Command>, now: u64) -> (r: Option<(Option<u64>, bool, bool, bool)>)
    ensures
        r == spec_options(cmd_views(values@), 3, now, None, false, false, false),
{
    proof {
        lemma_cmd_views_props(values@);
    }
    let ghost vs = cmd_views(values@);
    let mut exp: Option<u64> = None;
    let mut nx: bool = false;
    let mut xx: bool = false;
    let mut get: bool = false;
    let mut i: usize = 3;
    #[verifier::loop_isolation(false)]
    loop
        invariant
            3 <= i,
            i <= values@.len() + 3,
            spec_options(vs, 3, now, None, false, false, false)
                == spec_options(vs, i as int, now, exp, nx, xx, get),
        decreases values@.len() + 3 - i,
    {
        if i >= values.len() {
            return Some((exp, nx, xx, get));
        }
        match &values[i] {
            Command::BulkString { value: t } => {
                let lt = to_lowercase(t);
                let is_ex = slices_eq(lt.as_slice(), "ex".as_bytes());
                let is_px = slices_eq(lt.as_slice(), "px".as_bytes());
                if is_ex || is_px {
                    if i + 1 >= values.len() {
                        return None;
                    }
                    match &values[i + 1] {
                        Command::BulkString { value: num } => {
                            match parse_u64_digits(num.as_slice()) {
                                Some(d) => {
                                    let ms_sat: u64 = if is_px {
                                        d
                                    } else {
                                        match d.checked_mul(1000) {
                                            Some(ms) => ms,
                                            None => u64::MAX,
                                        }
                                    };
                                    let e: u64 = match now.checked_add(ms_sat) {
                                        Some(x) => x,
                                        None => u64::MAX,
                                    };
                                    proof {
                                        assert(e == sat_add(now, if lower_seq(t@) == "px".spec_bytes() { dec_value(num@) } else { dec_value(num@) * 1000 }));
                                    }
                                    exp = Some(e);
                                    i = i + 2;
                                },
                                None => {
                                    return None;
                                },
                            }
                        },
                        _ => {
                            return None;
                        },
                    }
                } else {
                    if slices_eq(lt.as_slice(), "nx".as_bytes()) {
                        nx = true;
                    } else if slices_eq(lt.as_slice(), "xx".as_bytes()) {
                        xx = true;
                    } else if slices_eq(lt.as_slice(), "get".as_bytes()) {
                        get = true;
                    }
                    i = i + 1;
                }
            },
            _ => {
                i = i + 1;
            },
        }
    }
}

/// Executes a checked `SET` against the keyspace and shapes the reply.
fn execute_set(ks: &mut Keyspace, key: &Vec<u8>, value: &Vec<u8>, expiry: Option<u64>, nx: bool, xx: bool, get: bool, now: u64) -> (r: Reply)
    requires
        old(ks).wf(),
    ensures
        final(ks).wf(),
        spec_set_applies(old(ks)@, key@, now, nx, xx) ==> {
            &&& final(ks)@ == old(ks)@.insert(key@, EntryView { value: value@, expiry })
            &&& r@ == (if get {
                match spec_get(old(ks)@, key@, now) {
                    Some(p) => ReplyView::BulkString { value: p },
                    None => ReplyView::Null,
                }
            } else {
                ReplyView::SimpleString { value: "OK".spec_bytes() }
            })
        },
        !spec_set_applies(old(ks)@, key@, now, nx, xx) ==> {
            &&& final(ks)@ == spec_get_effect(old(ks)@, key@, now)
            &&& r@ == ReplyView::Null
        },
{
    let outcome = ks.set(key, clone_bytes(value), expiry, nx, xx, now);
    match outcome {
        SetOutcome::NotApplied => Reply::Null,
        SetOutcome::Applied { prev } => {
            if get {
                match prev {
                    Some(p) => Reply::BulkString { value: p },
                    None => Reply::Null,
                }
            } else {
                simple_reply("OK")
            }
        },
    }
}

/// Handles `SET key value [options]`.
fn handle_set(ks: &mut Keyspace, values: &Vec<Command>, now: u64) -> (r: Reply)
    requires
        old(ks).wf(),
    ensures
        final(ks).wf(),
        (r@, final(ks)@) == spec_exec_set(old(ks)@, cmd_views(values@), now),
{
    proof {
        lemma_cmd_views_props(values@);
    }
    if values.len() < 3 {
        return wrong_number_args("set");
    }
    let opts = parse_set_options(values, now);
    match opts {
        None => invalid_arg("set"),
        Some((expiry, nx, xx, get)) => {
            match (&values[1], &values[2]) {
                (Command::BulkString { value: key }, Command::BulkString { value }) => {
                    execute_set(ks, key, value, expiry, nx, xx, get, now)
                },
                _ => invalid_arg("set"),
            }
        },
    }
}

/// Handles `GET key`.
fn handle_get(ks: &mut Keyspace, values: &Vec<Command>, now: u64) -> (r: Reply)
    requires
        old(ks).wf(),
    ensures
        final(ks).wf(),
        (r@, final(ks)@) == spec_exec_get(old(ks)@, cmd_views(values@), now),
{
    proof {
        lemma_cmd_views_props(values@);
    }
    if values.len() != 2 {
        return wrong_number_args("get");
    }
    match &values[1] {
        Command::BulkString { value: key } => {
            match ks.get(key, now) {
                Some(v) => Reply::BulkString { value: v },
                None => Reply::Null,
            }
        },
        _ => invalid_arg("get"),
    }
}

/// Handles `ECHO arg`.
pub fn handle_echo(values: &Vec<Command>) -> (r: Reply)
    ensures
        r@ == spec_echo(cmd_views(values@)),
{
    proof {
        lemma_cmd_views_props(values@);
    }
    if values.len() != 2 {
        return wrong_number_args("echo");
    }
    match &values[1] {
        Command::BulkString { value } => Reply::BulkString { value: clone_bytes(value) },
        _ => invalid_arg("echo"),
    }
}

/// Executes one decoded command against the keyspace and returns the reply.
pub fn handle_command(cmd: &Command, ks: &mut Keyspace, now: u64) -> (r: Reply)
    requires
        old(ks).wf(),
    ensures
        final(ks).wf(),
        (r@, final(ks)@) == spec_execute(old(ks)@, cmd@, now),
{
    match cmd {
        Command::Array { values } => {
            proof {
                lemma_cmd_views_props(values@);
            }
            if values.len() == 0 {
                return crate::reply::error_reply("ERR empty command");
            }
            match &values[0] {
                Command::BulkString { value: name } => {
                    let ln = to_lowercase(name);
                    if slices_eq(ln.as_slice(), "ping".as_bytes()) {
                        if values.len() != 1 {
                            wrong_number_args("ping")
                        } else {
                            simple_reply("PONG")
                        }
                    } else if slices_eq(ln.as_slice(), "echo".as_bytes()) {
                        handle_echo(values)
                    } else if slices_eq(ln.as_slice(), "get".as_bytes()) {
                        handle_get(ks, values, now)
                    } else if slices_eq(ln.as_slice(), "set".as_bytes()) {
                        handle_set(ks, values, now)
                    } else {
                        crate::reply::error_reply("ERR unsupported command")
                    }
                },
                _ => crate::reply::error_reply("ERR unsupported command"),
            }
        },
        _ => crate::reply::error_reply("ERR unsupported command"),
    }
}

/// The text of the error reply sent when the decoder fails hard.
pub open spec fn decode_error_text(e: ParserError) -> Seq<u8> {
    match e {
        ParserError::EmptyInput => "ERR protocol error: incomplete frame".spec_bytes(),
        ParserError::UnexpectedEOF => "ERR protocol error: incomplete frame".spec_bytes(),
        ParserError::UnknownTypeByte => "ERR protocol error: unknown type byte".spec_bytes(),
        ParserError::BadLength => "ERR protocol error: bad length".spec_bytes(),
        ParserError::BadInteger => "ERR protocol error: bad integer".spec_bytes(),
        ParserError::MissingTerminator => "ERR protocol error: missing terminator".spec_bytes(),
    }
}

/// The error reply for a decoder failure.
pub fn decode_error_reply(e: ParserError) -> (r: Reply)
    ensures
        r@ == (ReplyView::Error { value: decode_error_text(e) }),
{
    match e {
        ParserError::EmptyInput => error_reply("ERR protocol error: incomplete frame"),
        ParserError::UnexpectedEOF => error_reply("ERR protocol error: incomplete frame"),
        ParserError::UnknownTypeByte => error_reply("ERR protocol error: unknown type byte"),
        ParserError::BadLength => error_reply("ERR protocol error: bad length"),
        ParserError::BadInteger => error_reply("ERR protocol error: bad integer"),
        ParserError::MissingTerminator => error_reply("ERR protocol error: missing terminator"),
    }
}

/// One connection's handling of a request buffer at time `now`: the reply
/// bytes written back, in request order, the keyspace left behind, the
/// position up to which the buffer was consumed, and whether the connection
/// is closed. Decoding stops at the first incomplete frame (the bytes stay in
/// the buffer) and a hard decoder error is answered once and closes the
/// connection.
pub open spec fn spec_session(m: Map<Seq<u8>, EntryView>, s: Seq<u8>, i: int, now: u64) -> (Seq<u8>, Map<Seq<u8>, EntryView>, int, bool)
    decreases s.len() - i,
{
    match spec_parse(s, i) {
        Ok((c, j)) => {
            if i < j <= s.len() {
                let er = spec_execute(m, c, now);
                let rest = spec_session(er.1, s, j, now);
                (spec_encode_reply(er.0) + rest.0, rest.1, rest.2, rest.3)
            } else {
                (Seq::empty(), m, i, false)
            }
        },
        Err(e) => {
            if is_incomplete(e) {
                (Seq::empty(), m, i, false)
            } else {
                (spec_encode_reply(ReplyView::Error { value: decode_error_text(e) }), m, i, true)
            }
        },
    }
}

/// Reply bytes already produced, composed with the rest of a session.
spec fn session_cont(acc: Seq<u8>, r: (Seq<u8>, Map<Seq<u8>, EntryView>, int, bool)) -> (Seq<u8>, Map<Seq<u8>, EntryView>, int, bool) {
    (acc + r.0, r.1, r.2, r.3)
}

/// Decodes and executes every complete frame of `input` in order, against
/// the keyspace at time `now`. Returns the concatenated reply bytes, how many
/// bytes of `input` were consumed, and whether the connection must close
/// (after a hard decoder error, whose reply comes last). Bytes of a trailing
/// incomplete frame are not consumed: the caller keeps them and retries once
/// more bytes arrive.
pub fn run_pipeline(ks: &mut Keyspace, input: &[u8], now: u64) -> (r: (Vec<u8>, usize, bool))
    requires
        old(ks).wf(),
    ensures
        final(ks).wf(),
        ({
            let sess = spec_session(old(ks)@, input@, 0, now);
            r.0@ == sess.0 && final(ks)@ == sess.1 && r.1 as int == sess.2 && r.2 == sess.3
        }),
        r.1 <= input@.len(),
{
    let ghost s = input@;
    let mut out: Vec<u8> = Vec::new();
    let mut pos: usize = 0;
    proof {
        let whole = spec_session(ks@, s, 0, now);
        assert(Seq::<u8>::empty() + whole.0 =~= whole.0);
    }
    #[verifier::loop_isolation(false)]
    loop
        invariant
            pos <= s.len(),
            ks.wf(),
            spec_session(old(ks)@, s, 0, now) == session_cont(out@, spec_session(ks@, s, pos as int, now)),
        decreases s.len() - pos,
    {
        match crate::proto::parse_command(input, pos) {
            Ok((c, j)) => {
                let ghost pre = ks@;
                let rep = handle_command(&c, ks, now);
                let bytes = crate::reply::encode_reply(&rep);
                proof {
                    let rest = spec_session(ks@, s, j as int, now);
                    assert(spec_session(pre, s, pos as int, now)
                        == (spec_encode_reply(rep@) + rest.0, rest.1, rest.2, rest.3));
                    assert(out@ + (spec_encode_reply(rep@) + rest.0)
                        =~= (out@ + bytes@) + rest.0);
                }
                crate::proto::push_bytes(&mut out, bytes.as_slice());
                pos = j;
            },
            Err(e) => {
                if e == ParserError::EmptyInput || e == ParserError::UnexpectedEOF {
                    proof {
                        assert(out@ + Seq::<u8>::empty() =~= out@);
                    }
                    return (out, pos, false);
                }
                let rep = decode_error_reply(e);
                let bytes = crate::reply::encode_reply(&rep);
                crate::proto::push_bytes(&mut out, bytes.as_slice());
                return (out, pos, true);
            },
        }
    }
}

/// The error reply owed when the peer ends the stream in the middle of a
/// frame: the bytes still in the buffer decode as incomplete, the connection
/// is answered once and closed.
pub fn eof_reply(input: &[u8]) -> (r: Option<Vec<u8>>)
    ensures
        match r {
            Some(bytes) => input@.len() > 0
                && (match spec_parse(input@, 0) {
                    Err(e) => is_incomplete(e)
                        && bytes@ == spec_encode_reply(ReplyView::Error { value: decode_error_text(e) }),
                    Ok(_) => false,
                }),
            None => input@.len() == 0 || (match spec_parse(input@, 0) {
                Err(e) => !is_incomplete(e),
                Ok(_) => true,
            }),
        },
{
    if input.len() == 0 {
        return None;
    }
    match crate::proto::parse_command(input, 0) {
        Err(e) => {
            if e == ParserError::EmptyInput || e == ParserError::UnexpectedEOF {
                Some(crate::reply::encode_reply(&decode_error_reply(e)))
            } else {
                None
            }
        },
        Ok(_) => None,
    }
}

/// Relies on chrono's `Utc::now` and `DateTime::timestamp_millis`: the
/// wall-clock instant, as signed milliseconds since the Unix epoch. Nothing
/// can be promised of the clock's reading.
#[verifier::external_body]
fn now_millis_raw() -> i64 {
    chrono::Utc::now().timestamp_millis()
}

/// The wall-clock instant as unsigned milliseconds since the Unix epoch;
/// instants before the epoch read as zero.
pub fn current_millis() -> u64 {
    let t = now_millis_raw();
    if t < 0 {
        0
    } else {
        t as u64
    }
}

/// `run_pipeline` against the wall clock: every complete frame of `input` is
/// executed at one instant read from the clock, and whatever that instant
/// was, the replies, the keyspace and the consumed count are those of the
/// session at it.
pub fn respond(ks: &mut Keyspace, input: &[u8]) -> (r: (Vec<u8>, usize, bool))
    requires
        old(ks).wf(),
    ensures
        final(ks).wf(),
        exists|now: u64| {
            let sess = #[trigger] spec_session(old(ks)@, input@, 0, now);
            r.0@ == sess.0 && final(ks)@ == sess.1 && r.1 as int == sess.2 && r.2 == sess.3
        },
        r.1 <= input@.len(),
{
    let now = current_millis();
    let r = run_pipeline(ks, input, now);
    proof {
        let sess = spec_session(old(ks)@, input@, 0, now);
        assert(r.0@ == sess.0 && final(ks)@ == sess.1 && r.1 as int == sess.2 && r.2 == sess.3);
    }
    r
}

/// Executing a sequence of commands in order: the concatenated replies and
/// the final keyspace.
pub open spec fn spec_run(m: Map<Seq<u8>, EntryView>, cs: Seq<CommandView>, now: u64) -> (Seq<u8>, Map<Seq<u8>, EntryView>)
    decreases cs.len(),
{
    if cs.len() == 0 {
        (Seq::empty(), m)
    } else {
        let er = spec_execute(m, cs[0], now);
        let rest = spec_run(er.1, cs.drop_first(), now);
        (spec_encode_reply(er.0) + rest.0, rest.1)
    }
}

/// Pipelining keeps order: a buffer holding the byte forms of requests
/// `cs`, in order, produces exactly the concatenation of the replies to
/// `cs`, executed first to last, and consumes the whole buffer.
pub proof fn lemma_pipeline_order(m: Map<Seq<u8>, EntryView>, cs: Seq<CommandView>, now: u64)
    requires
        forall|k: int| 0 <= k < cs.len() ==> wf_cmd(#[trigger] cs[k]),
    ensures
        ({
            let sess = spec_session(m, spec_encode_list(cs), 0, now);
            let run = spec_run(m, cs, now);
            sess.0 == run.0 && sess.1 == run.1 && sess.2 == spec_encode_list(cs).len()
                && sess.3 == false
        }),
{
    let s = spec_encode_list(cs);
    assert(s.subrange(0, s.len() as int) =~= s);
    lemma_session_encoded(m, cs, s, 0, now);
}

/// `lemma_pipeline_order`, at an offset inside a larger buffer.
proof fn lemma_session_encoded(m: Map<Seq<u8>, EntryView>, cs: Seq<CommandView>, s: Seq<u8>, i: int, now: u64)
    requires
        forall|k: int| 0 <= k < cs.len() ==> wf_cmd(#[trigger] cs[k]),
        0 <= i <= s.len(),
        i + spec_encode_list(cs).len() == s.len(),
        s.subrange(i, s.len() as int) == spec_encode_list(cs),
    ensures
        ({
            let sess = spec_session(m, s, i, now);
            let run = spec_run(m, cs, now);
            sess.0 == run.0 && sess.1 == run.1 && sess.2 == s.len() && sess.3 == false
        }),
    decreases cs.len(),
{
    if cs.len() == 0 {
        assert(i == s.len());
    } else {
        let c = cs[0];
        let rest = cs.drop_first();
        let e0 = spec_encode(c);
        let erest = spec_encode_list(rest);
        assert(spec_encode_list(cs) == e0 + erest);
        assert forall|k: int| 0 <= k < e0.len() + erest.len() implies s[i + k] == #[trigger] (e0 + erest)[k] by {
            assert(s.subrange(i, s.len() as int)[k] == s[i + k]);
        }
        assert forall|k: int| 0 <= k < e0.len() implies s.subrange(i, i + e0.len() as int)[k] == e0[k] by {
            assert((e0 + erest)[k] == e0[k]);
            assert(s[i + k] == (e0 + erest)[k]);
        }
        assert(s.subrange(i, i + e0.len() as int) =~= e0);
        crate::proto::lemma_encode_len(c);
        crate::proto::lemma_wf_implies_dec_wf(c);
        crate::proto::lemma_parse_encoded(c, s, i);
        let j = i + e0.len();
        assert forall|k: int| 0 <= k < erest.len() implies s.subrange(j, s.len() as int)[k] == erest[k] by {
            assert((e0 + erest)[e0.len() + k] == erest[k]);
            assert(s[i + (e0.len() + k)] == (e0 + erest)[e0.len() + k]);
            assert(s.subrange(j, s.len() as int)[k] == s[j + k]);
        }
        assert(s.subrange(j, s.len() as int) =~= erest);
        let er = spec_execute(m, c, now);
        lemma_session_encoded(er.1, rest, s, j, now);
    }
}

} // verus!
