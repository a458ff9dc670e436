//! The RESP wire codec: structured frame values and a streaming decoder.

use vstd::prelude::*;
use vstd::slice::slice_subrange;
use vstd::slice::slice_to_vec;

verus! {

broadcast use vstd::seq::axiom_seq_index_decreases, vstd::std_specs::vec::axiom_vec_decreases_to_view;

/// Errors the RESP decoder reports.
///
/// `EmptyInput` and `UnexpectedEOF` mean the buffer holds no complete frame
/// yet; a streaming caller keeps the bytes and waits for more. The other
/// variants mean the stream is desynchronised beyond repair.
#[derive(Clone, Copy, Debug, PartialEq, Eq, Structural)]
pub enum ParserError {
    /// No byte was available where a frame had to begin.
    EmptyInput,
    /// The first byte of a frame is none of `+ - : $ *`.
    UnknownTypeByte,
    /// A declared length is not a non-negative decimal that fits the machine.
    BadLength,
    /// An integer frame's payload is not a signed 64-bit decimal.
    BadInteger,
    /// The mandatory `\r\n` terminator is malformed.
    MissingTerminator,
    /// The input ends in the middle of a frame.
    UnexpectedEOF,
}

/// One decoded RESP frame. Payloads are raw bytes: bulk strings are
/// binary-safe, and simple strings and errors carry the bytes between the
/// type byte and the terminator.
#[derive(Debug)]
#[allow(inconsistent_fields)]
pub enum Command {
    SimpleString { value: Vec<u8> },
    Error { value: Vec<u8> },
    Integer { value: i64 },
    BulkString { value: Vec<u8> },
    Null,
    Array { values: Vec<Command> },
}

/// The mathematical value of a `Command`, with sequences for the vectors.
#[allow(inconsistent_fields)]
pub enum CommandView {
    SimpleString { value: Seq<u8> },
    Error { value: Seq<u8> },
    Integer { value: i64 },
    BulkString { value: Seq<u8> },
    Null,
    Array { values: Seq<CommandView> },
}

/// The mathematical value of a `Command`.
pub open spec fn cmd_view(c: Command) -> CommandView
    decreases c, 0int,
{
    match c {
        Command::SimpleString { value } => CommandView::SimpleString { value: value@ },
        Command::Error { value } => CommandView::Error { value: value@ },
        Command::Integer { value } => CommandView::Integer { value },
        Command::BulkString { value } => CommandView::BulkString { value: value@ },
        Command::Null => CommandView::Null,
        Command::Array { values } => CommandView::Array { values: cmd_views(values@) },
    }
}

/// The values of a sequence of commands, element by element.
pub open spec fn cmd_views(s: Seq<Command>) -> Seq<CommandView>
    decreases s, 1int,
{
    if s.len() == 0 {
        Seq::empty()
    } else {
        seq![cmd_view(s[0])] + cmd_views(s.drop_first())
    }
}

impl View for Command {
    type V = CommandView;

    open spec fn view(&self) -> CommandView {
        cmd_view(*self)
    }
}

/// An error that still lets the decoder succeed once more bytes arrive.
pub open spec fn is_incomplete(e: ParserError) -> bool {
    e == ParserError::EmptyInput || e == ParserError::UnexpectedEOF
}

pub open spec fn is_digit(b: u8) -> bool {
    48 <= b <= 57
}

pub open spec fn digit_val(b: u8) -> nat {
    (b - 48) as nat
}

pub open spec fn all_digits(s: Seq<u8>) -> bool {
    forall|i: int| 0 <= i < s.len() ==> is_digit(#[trigger] s[i])
}

/// Value of a decimal digit string, most significant digit first.
pub open spec fn dec_value(s: Seq<u8>) -> nat
    decreases s.len(),
{
    if s.len() == 0 {
        0
    } else {
        dec_value(s.drop_last()) * 10 + digit_val(s.last())
    }
}

/// Canonical decimal digit string of `n`, without leading zeros.
pub open spec fn dec_digits(n: nat) -> Seq<u8>
    decreases n,
{
    if n < 10 {
        seq![(48 + n) as u8]
    } else {
        dec_digits(n / 10).push((48 + n % 10) as u8)
    }
}

/// Payload of a line-terminated frame: the bytes from `i` up to the first
/// `\r`, which must be followed by `\n`; also returns the position after the
/// terminator.
pub open spec fn spec_parse_line(s: Seq<u8>, i: int) -> Result<(Seq<u8>, int), ParserError>
    decreases s.len() - i,
{
    if i < 0 || i >= s.len() {
        Err(ParserError::UnexpectedEOF)
    } else if s[i] == 13 {
        if i + 1 >= s.len() {
            Err(ParserError::UnexpectedEOF)
        } else if s[i + 1] != 10 {
            Err(ParserError::MissingTerminator)
        } else {
            Ok((Seq::empty(), i + 2))
        }
    } else {
        match spec_parse_line(s, i + 1) {
            Ok((rest, end)) => Ok((seq![s[i]] + rest, end)),
            Err(e) => Err(e),
        }
    }
}

/// The payload of an integer frame, read as a signed 64-bit decimal.
pub open spec fn spec_parse_i64(p: Seq<u8>) -> Option<i64> {
    if p.len() > 0 && p[0] == 45 {
        let d = p.subrange(1, p.len() as int);
        if d.len() > 0 && all_digits(d) && dec_value(d) <= 0x8000_0000_0000_0000 {
            Some((-(dec_value(d) as int)) as i64)
        } else {
            None
        }
    } else if p.len() > 0 && all_digits(p) && dec_value(p) <= i64::MAX {
        Some(dec_value(p) as i64)
    } else {
        None
    }
}

/// A declared length: a non-negative decimal that fits the machine.
pub open spec fn valid_len_payload(p: Seq<u8>) -> bool {
    p.len() > 0 && all_digits(p) && dec_value(p) <= usize::MAX
}

/// The decoder, one frame starting at position `i` of `s`. On success it
/// yields the frame's value and the position just past the frame.
pub open spec fn spec_parse(s: Seq<u8>, i: int) -> Result<(CommandView, int), ParserError>
    decreases s.len() - i, 1int, 0int,
{
    if i < 0 || i >= s.len() {
        Err(ParserError::EmptyInput)
    } else if s[i] == 43 {
        match spec_parse_line(s, i + 1) {
            Ok((p, end)) => Ok((CommandView::SimpleString { value: p }, end)),
            Err(e) => Err(e),
        }
    } else if s[i] == 45 {
        match spec_parse_line(s, i + 1) {
            Ok((p, end)) => Ok((CommandView::Error { value: p }, end)),
            Err(e) => Err(e),
        }
    } else if s[i] == 58 {
        match spec_parse_line(s, i + 1) {
            Ok((p, end)) => match spec_parse_i64(p) {
                Some(v) => Ok((CommandView::Integer { value: v }, end)),
                None => Err(ParserError::BadInteger),
            },
            Err(e) => Err(e),
        }
    } else if s[i] == 36 {
        match spec_parse_line(s, i + 1) {
            Ok((p, end)) => {
                if p == seq![45u8, 49u8] {
                    Ok((CommandView::Null, end))
                } else if !valid_len_payload(p) {
                    Err(ParserError::BadLength)
                } else {
                    let n = dec_value(p) as int;
                    if end + n + 2 > s.len() {
                        Err(ParserError::UnexpectedEOF)
                    } else if s[end + n] != 13 || s[end + n + 1] != 10 {
                        Err(ParserError::MissingTerminator)
                    } else {
                        Ok((CommandView::BulkString { value: s.subrange(end, end + n) }, end + n + 2))
                    }
                }
            },
            Err(e) => Err(e),
        }
    } else if s[i] == 42 {
        match spec_parse_line(s, i + 1) {
            Ok((p, end)) => {
                if !valid_len_payload(p) {
                    Err(ParserError::BadLength)
                } else if !(i < end <= s.len()) {
                    // never reached: a parsed line always ends past its start
                    Err(ParserError::UnexpectedEOF)
                } else {
                    match spec_parse_elems(s, end, dec_value(p)) {
                        Ok((vs, end2)) => Ok((CommandView::Array { values: vs }, end2)),
                        Err(e) => Err(e),
                    }
                }
            },
            Err(e) => Err(e),
        }
    } else {
        Err(ParserError::UnknownTypeByte)
    }
}

/// `n` consecutive frames starting at position `i`.
pub open spec fn spec_parse_elems(s: Seq<u8>, i: int, n: nat) -> Result<(Seq<CommandView>, int), ParserError>
    decreases s.len() - i, 2int, n,
{
    if n == 0 {
        Ok((Seq::empty(), i))
    } else {
        match spec_parse(s, i) {
            Ok((c, j)) => {
                if !(i < j <= s.len()) {
                    // never reached: a parsed frame always ends past its start
                    Err(ParserError::UnexpectedEOF)
                } else {
                    match spec_parse_elems(s, j, (n - 1) as nat) {
                        Ok((vs, end)) => Ok((seq![c] + vs, end)),
                        Err(e) => Err(e),
                    }
                }
            },
            Err(e) => Err(e),
        }
    }
}

pub proof fn lemma_dec_digits_are_digits(n: nat)
    ensures
        dec_digits(n).len() >= 1,
        all_digits(dec_digits(n)),
    decreases n,
{
    if n >= 10 {
        lemma_dec_digits_are_digits(n / 10);
        assert forall|i: int| 0 <= i < dec_digits(n).len() implies is_digit(#[trigger] dec_digits(n)[i]) by {
            if i < dec_digits(n / 10).len() {
                assert(dec_digits(n)[i] == dec_digits(n / 10)[i]);
            }
        }
    }
}

/// Reading back the canonical digit string gives the number.
pub proof fn lemma_dec_digits_value(n: nat)
    ensures
        dec_value(dec_digits(n)) == n,
    decreases n,
{
    if n < 10 {
        assert(dec_digits(n) == seq![(48 + n) as u8]);
        assert(dec_digits(n).drop_last() =~= Seq::<u8>::empty());
        assert(dec_value(Seq::<u8>::empty()) == 0);
        assert(dec_digits(n).last() == (48 + n) as u8);
    } else {
        lemma_dec_digits_value(n / 10);
        let d = dec_digits(n / 10);
        assert(dec_digits(n) == d.push((48 + n % 10) as u8));
        assert(d.push((48 + n % 10) as u8).drop_last() =~= d);
        vstd::arithmetic::div_mod::lemma_fundamental_div_mod(n as int, 10);
    }
}

/// A digit string's value only grows as digits are appended.
pub proof fn lemma_dec_value_take_le(s: Seq<u8>, k: int)
    requires
        all_digits(s),
        0 <= k <= s.len(),
    ensures
        dec_value(s.take(k)) <= dec_value(s),
    decreases s.len() - k,
{
    if k < s.len() {
        lemma_dec_value_take_le(s, k + 1);
        assert(s.take(k + 1).drop_last() =~= s.take(k));
        assert(dec_value(s.take(k + 1)) == dec_value(s.take(k)) * 10 + digit_val(s[k]));
        assert(dec_value(s.take(k)) * 10 >= dec_value(s.take(k)) * 1) by (nonlinear_arith)
            requires dec_value(s.take(k)) >= 0,
        ;
    } else {
        assert(s.take(k) =~= s);
    }
}

/// What a successfully read line looks like in the input.
pub proof fn lemma_parse_line_props(s: Seq<u8>, i: int)
    requires
        0 <= i <= s.len(),
    ensures
        spec_parse_line(s, i) matches Ok((p, end)) ==> {
            &&& i + 2 <= end <= s.len()
            &&& end == i + p.len() + 2
            &&& p == s.subrange(i, end - 2)
            &&& forall|k: int| 0 <= k < p.len() ==> p[k] != 13
            &&& s[end - 2] == 13
            &&& s[end - 1] == 10
        },
    decreases s.len() - i,
{
    if i < s.len() && s[i] != 13 {
        lemma_parse_line_props(s, i + 1);
        match spec_parse_line(s, i + 1) {
            Ok((rest, end)) => {
                assert(seq![s[i]] + rest =~= s.subrange(i, end - 2));
            },
            Err(_) => {},
        }
    } else if i < s.len() && s[i] == 13 {
        if i + 1 < s.len() && s[i + 1] == 10 {
            assert(Seq::<u8>::empty() =~= s.subrange(i, i));
        }
    }
}

/// A parsed frame ends past its start and within the input.
pub proof fn lemma_parse_bounds(s: Seq<u8>, i: int)
    requires
        0 <= i <= s.len(),
    ensures
        spec_parse(s, i) matches Ok((c, j)) ==> i < j <= s.len(),
    decreases s.len() - i, 1int, 0int,
{
    if i < s.len() {
        lemma_parse_line_props(s, i + 1);
        if s[i] == 42 {
            match spec_parse_line(s, i + 1) {
                Ok((p, end)) => {
                    if valid_len_payload(p) && i < end <= s.len() {
                        lemma_parse_elems_bounds(s, end, dec_value(p));
                    }
                },
                Err(_) => {},
            }
        }
    }
}

/// A parsed run of `n` frames ends no earlier than it starts and yields `n` values.
pub proof fn lemma_parse_elems_bounds(s: Seq<u8>, i: int, n: nat)
    requires
        0 <= i <= s.len(),
    ensures
        spec_parse_elems(s, i, n) matches Ok((vs, e)) ==> i <= e <= s.len() && vs.len() == n,
    decreases s.len() - i, 2int, n,
{
    if n != 0 {
        lemma_parse_bounds(s, i);
        match spec_parse(s, i) {
            Ok((c, j)) => {
                if i < j <= s.len() {
                    lemma_parse_elems_bounds(s, j, (n - 1) as nat);
                }
            },
            Err(_) => {},
        }
    }
}

/// Length and elements of `cmd_views`, for reasoning about decoded arrays.
pub proof fn lemma_cmd_views_props(s: Seq<Command>)
    ensures
        cmd_views(s).len() == s.len(),
        forall|i: int| 0 <= i < s.len() ==> cmd_views(s)[i] == cmd_view(s[i]),
    decreases s.len(),
{
    if s.len() > 0 {
        lemma_cmd_views_props(s.drop_first());
    }
}

/// `cmd_views` commutes with appending one command.
pub proof fn lemma_cmd_views_push(s: Seq<Command>, c: Command)
    ensures
        cmd_views(s.push(c)) == cmd_views(s).push(cmd_view(c)),
{
    lemma_cmd_views_props(s);
    lemma_cmd_views_props(s.push(c));
    assert(cmd_views(s.push(c)) =~= cmd_views(s).push(cmd_view(c)));
}

/// How the exec decoder's result must relate to the spec decoder.
pub open spec fn parse_matches(s: Seq<u8>, i: int, r: Result<(Command, usize), ParserError>) -> bool {
    match r {
        Ok((c, j)) => spec_parse(s, i) == Ok::<(CommandView, int), ParserError>((c@, j as int))
            && i < j <= s.len(),
        Err(e) => spec_parse(s, i) == Err::<(CommandView, int), ParserError>(e),
    }
}

/// Composition of an already-read line prefix with the rest of the line.
spec fn line_step(acc: Seq<u8>, r: Result<(Seq<u8>, int), ParserError>) -> Result<(Seq<u8>, int), ParserError> {
    match r {
        Ok((p, end)) => Ok((acc + p, end)),
        Err(e) => Err(e),
    }
}

/// Reads one `\r\n`-terminated line beginning at `pos`, returning its payload
/// and the position just past the terminator.
fn get_value(input: &[u8], pos: usize) -> (r: Result<(Vec<u8>, usize), ParserError>)
    requires
        pos <= input@.len(),
    ensures
        match r {
            Ok((p, end)) => spec_parse_line(input@, pos as int) == Ok::<(Seq<u8>, int), ParserError>((p@, end as int))
                && pos < end <= input@.len(),
            Err(e) => spec_parse_line(input@, pos as int) == Err::<(Seq<u8>, int), ParserError>(e),
        },
{
    let ghost s = input@;
    let mut acc: Vec<u8> = Vec::new();
    let mut cur: usize = pos;
    proof {
        match spec_parse_line(s, pos as int) {
            Ok((p, end)) => {
                assert(Seq::<u8>::empty() + p =~= p);
            },
            Err(_) => {},
        }
    }
    loop
        invariant
            pos <= cur <= s.len(),
            input@ == s,
            spec_parse_line(s, pos as int) == line_step(acc@, spec_parse_line(s, cur as int)),
        decreases s.len() - cur,
    {
        if cur >= input.len() {
            return Err(ParserError::UnexpectedEOF);
        }
        let b = input[cur];
        if b == 13 {
            if cur + 1 >= input.len() {
                return Err(ParserError::UnexpectedEOF);
            }
            if input[cur + 1] != 10 {
                return Err(ParserError::MissingTerminator);
            }
            proof {
                assert(spec_parse_line(s, cur as int) == Ok::<(Seq<u8>, int), ParserError>((Seq::empty(), cur + 2)));
                assert(acc@ + Seq::<u8>::empty() =~= acc@);
            }
            return Ok((acc, cur + 2));
        }
        proof {
            match spec_parse_line(s, cur + 1) {
                Ok((rest, end)) => {
                    assert(acc@ + (seq![s[cur as int]] + rest) =~= acc@.push(s[cur as int]) + rest);
                },
                Err(_) => {},
            }
        }
        acc.push(b);
        cur = cur + 1;
    }
}

/// Reads a run of decimal digits as a `u64`, whole-payload.
pub(crate) fn parse_u64_digits(p: &[u8]) -> (r: Option<u64>)
    ensures
        match r {
            Some(v) => p@.len() > 0 && all_digits(p@) && dec_value(p@) == v,
            None => p@.len() == 0 || !all_digits(p@) || dec_value(p@) > u64::MAX,
        },
{
    if p.len() == 0 {
        return None;
    }
    let mut acc: u64 = 0;
    let mut k: usize = 0;
    while k < p.len()
        invariant
            k <= p@.len(),
            all_digits(p@.take(k as int)),
            acc == dec_value(p@.take(k as int)),
        decreases p@.len() - k,
    {
        let b = p[k];
        if b < 48 || b > 57 {
            proof {
                assert(!is_digit(p@[k as int]));
            }
            return None;
        }
        let d: u64 = (b - 48) as u64;
        proof {
            assert(p@.take(k + 1).drop_last() =~= p@.take(k as int));
            assert(p@.take(k + 1).last() == p@[k as int]);
            assert(forall|i: int| 0 <= i < k + 1 ==> is_digit(#[trigger] p@.take(k + 1)[i]));
        }
        let next = match acc.checked_mul(10) {
            Some(x) => x.checked_add(d),
            None => None,
        };
        match next {
            Some(v) => {
                acc = v;
            },
            None => {
                proof {
                    assert(dec_value(p@.take(k + 1)) > u64::MAX);
                    if all_digits(p@) {
                        lemma_dec_value_take_le(p@, k + 1);
                    }
                }
                return None;
            },
        }
        k = k + 1;
    }
    proof {
        assert(p@.take(p@.len() as int) =~= p@);
    }
    Some(acc)
}

/// Reads an integer frame's payload as a signed 64-bit decimal.
fn parse_i64_payload(p: &Vec<u8>) -> (r: Option<i64>)
    ensures
        r == spec_parse_i64(p@),
{
    if p.len() > 0 && p[0] == 45 {
        let rest = slice_subrange(p.as_slice(), 1, p.len());
        proof {
            assert(rest@ =~= p@.subrange(1, p@.len() as int));
        }
        match parse_u64_digits(rest) {
            Some(v) => {
                if v <= 0x7fff_ffff_ffff_ffff {
                    Some(0i64 - (v as i64))
                } else if v == 0x8000_0000_0000_0000 {
                    Some(i64::MIN)
                } else {
                    None
                }
            },
            None => None,
        }
    } else {
        match parse_u64_digits(p.as_slice()) {
            Some(v) => {
                if v <= 0x7fff_ffff_ffff_ffff {
                    Some(v as i64)
                } else {
                    None
                }
            },
            None => None,
        }
    }
}

/// Reads exactly `len` payload bytes at `pos` and the trailing terminator.
fn get_value_with_len(input: &[u8], pos: usize, len: usize) -> (r: Result<(Vec<u8>, usize), ParserError>)
    requires
        pos <= input@.len(),
    ensures
        match r {
            Ok((v, end)) => pos + len + 2 <= input@.len()
                && input@[pos + len] == 13
                && input@[pos + len + 1] == 10
                && v@ == input@.subrange(pos as int, pos + len)
                && end == pos + len + 2,
            Err(ParserError::UnexpectedEOF) => pos + len + 2 > input@.len(),
            Err(ParserError::MissingTerminator) => pos + len + 2 <= input@.len()
                && (input@[pos + len] != 13 || input@[pos + len + 1] != 10),
            Err(_) => false,
        },
{
    let avail = input.len() - pos;
    if avail < 2 || len > avail - 2 {
        return Err(ParserError::UnexpectedEOF);
    }
    if input[pos + len] != 13 || input[pos + len + 1] != 10 {
        return Err(ParserError::MissingTerminator);
    }
    let v = slice_to_vec(slice_subrange(input, pos, pos + len));
    Ok((v, pos + len + 2))
}

/// Decodes a simple-string frame whose type byte stands at `pos`.
fn parse_simple_string(input: &[u8], pos: usize) -> (r: Result<(Command, usize), ParserError>)
    requires
        pos < input@.len() <= usize::MAX,
        input@[pos as int] == 43,
    ensures
        parse_matches(input@, pos as int, r),
{
    match get_value(input, pos + 1) {
        Ok((value, end)) => Ok((Command::SimpleString { value }, end)),
        Err(e) => Err(e),
    }
}

/// Decodes an error frame whose type byte stands at `pos`.
fn parse_error_string(input: &[u8], pos: usize) -> (r: Result<(Command, usize), ParserError>)
    requires
        pos < input@.len() <= usize::MAX,
        input@[pos as int] == 45,
    ensures
        parse_matches(input@, pos as int, r),
{
    match get_value(input, pos + 1) {
        Ok((value, end)) => Ok((Command::Error { value }, end)),
        Err(e) => Err(e),
    }
}

/// Decodes an integer frame whose type byte stands at `pos`.
fn parse_integer(input: &[u8], pos: usize) -> (r: Result<(Command, usize), ParserError>)
    requires
        pos < input@.len() <= usize::MAX,
        input@[pos as int] == 58,
    ensures
        parse_matches(input@, pos as int, r),
{
    match get_value(input, pos + 1) {
        Ok((payload, end)) => match parse_i64_payload(&payload) {
            Some(value) => Ok((Command::Integer { value }, end)),
            None => Err(ParserError::BadInteger),
        },
        Err(e) => Err(e),
    }
}

/// Decodes a bulk-string frame whose type byte stands at `pos`.
fn parse_bulk_string(input: &[u8], pos: usize) -> (r: Result<(Command, usize), ParserError>)
    requires
        pos < input@.len() <= usize::MAX,
        input@[pos as int] == 36,
    ensures
        parse_matches(input@, pos as int, r),
{
    let (len_payload, end) = match get_value(input, pos + 1) {
        Ok(x) => x,
        Err(e) => return Err(e),
    };
    if len_payload.len() == 2 && len_payload[0] == 45 && len_payload[1] == 49 {
        proof {
            assert(len_payload@ =~= seq![45u8, 49u8]);
        }
        return Ok((Command::Null, end));
    }
    proof {
        if len_payload@ == seq![45u8, 49u8] {
            assert(len_payload@.len() == 2 && len_payload@[0] == 45 && len_payload@[1] == 49);
            assert(false);
        }
    }
    let v = match parse_u64_digits(len_payload.as_slice()) {
        Some(v) => v,
        None => return Err(ParserError::BadLength),
    };
    if v > usize::MAX as u64 {
        return Err(ParserError::BadLength);
    }
    let n = v as usize;
    match get_value_with_len(input, end, n) {
        Ok((value, bend)) => Ok((Command::BulkString { value }, bend)),
        Err(e) => Err(e),
    }
}

/// Composition of already-decoded array elements with the remaining ones.
spec fn elems_step(acc: Seq<CommandView>, r: Result<(Seq<CommandView>, int), ParserError>) -> Result<(Seq<CommandView>, int), ParserError> {
    match r {
        Ok((vs, end)) => Ok((acc + vs, end)),
        Err(e) => Err(e),
    }
}

/// Decodes an array frame whose type byte stands at `pos`.
#[verifier::loop_isolation(false)]
fn parse_array(input: &[u8], pos: usize) -> (r: Result<(Command, usize), ParserError>)
    requires
        pos < input@.len() <= usize::MAX,
        input@[pos as int] == 42,
    ensures
        parse_matches(input@, pos as int, r),
    decreases input@.len() - pos, 0int,
{
    let ghost s = input@;
    let (len_payload, hend) = match get_value(input, pos + 1) {
        Ok(x) => x,
        Err(e) => return Err(e),
    };
    let v = match parse_u64_digits(len_payload.as_slice()) {
        Some(v) => v,
        None => return Err(ParserError::BadLength),
    };
    if v > usize::MAX as u64 {
        return Err(ParserError::BadLength);
    }
    let n = v as usize;
    let mut values: Vec<Command> = Vec::new();
    let mut cur: usize = hend;
    let mut k: usize = 0;
    proof {
        assert(cmd_views(values@) =~= Seq::<CommandView>::empty());
        match spec_parse_elems(s, hend as int, n as nat) {
            Ok((vs, e2)) => {
                assert(Seq::<CommandView>::empty() + vs =~= vs);
            },
            Err(_) => {},
        }
    }
    while k < n
        invariant
            input@ == s,
            pos < cur <= s.len(),
            k <= n,
            values@.len() == k,
            spec_parse_elems(s, hend as int, n as nat)
                == elems_step(cmd_views(values@), spec_parse_elems(s, cur as int, (n - k) as nat)),
        decreases n - k,
    {
        match parse_command(input, cur) {
            Ok((c, j)) => {
                proof {
                    lemma_cmd_views_push(values@, c);
                    match spec_parse_elems(s, j as int, (n - k - 1) as nat) {
                        Ok((vs, e2)) => {
                            assert(cmd_views(values@) + (seq![cmd_view(c)] + vs)
                                =~= cmd_views(values@).push(cmd_view(c)) + vs);
                        },
                        Err(_) => {},
                    }
                }
                values.push(c);
                cur = j;
            },
            Err(e) => {
                return Err(e);
            },
        }
        k = k + 1;
    }
    proof {
        match spec_parse_elems(s, cur as int, 0) {
            Ok((vs, e2)) => {
                assert(cmd_views(values@) + vs =~= cmd_views(values@));
            },
            Err(_) => {},
        }
    }
    Ok((Command::Array { values }, cur))
}

/// Decodes one frame beginning at `pos`, dispatching on the type byte.
pub fn parse_command(input: &[u8], pos: usize) -> (r: Result<(Command, usize), ParserError>)
    requires
        pos <= input@.len(),
    ensures
        parse_matches(input@, pos as int, r),
    decreases input@.len() - pos, 1int,
{
    if pos >= input.len() {
        return Err(ParserError::EmptyInput);
    }
    let b = input[pos];
    if b == 43 {
        parse_simple_string(input, pos)
    } else if b == 45 {
        parse_error_string(input, pos)
    } else if b == 58 {
        parse_integer(input, pos)
    } else if b == 36 {
        parse_bulk_string(input, pos)
    } else if b == 42 {
        parse_array(input, pos)
    } else {
        Err(ParserError::UnknownTypeByte)
    }
}

/// Decodes the first complete frame of `input`, returning it together with
/// the number of bytes it occupies. An `EmptyInput` or `UnexpectedEOF` error
/// means no complete frame has arrived yet: the caller keeps its buffer as it
/// is and retries once more bytes are in.
pub fn parse(input: &[u8]) -> (r: Result<(Command, usize), ParserError>)
    ensures
        parse_matches(input@, 0, r),
{
    parse_command(input, 0)
}

pub open spec fn crlf() -> Seq<u8> {
    seq![13u8, 10u8]
}

/// Digit string of an `i64`, with a leading minus for negative values.
pub open spec fn spec_int_bytes(v: i64) -> Seq<u8> {
    if v < 0 {
        seq![45u8] + dec_digits((-(v as int)) as nat)
    } else {
        dec_digits(v as nat)
    }
}

/// The canonical byte form of a frame value.
pub open spec fn spec_encode(c: CommandView) -> Seq<u8>
    decreases c, 0int,
{
    match c {
        CommandView::SimpleString { value } => seq![43u8] + value + crlf(),
        CommandView::Error { value } => seq![45u8] + value + crlf(),
        CommandView::Integer { value } => seq![58u8] + spec_int_bytes(value) + crlf(),
        CommandView::BulkString { value } => seq![36u8] + dec_digits(value.len()) + crlf() + value + crlf(),
        CommandView::Null => seq![36u8, 45u8, 49u8] + crlf(),
        CommandView::Array { values } => seq![42u8] + dec_digits(values.len()) + crlf() + spec_encode_list(values),
    }
}

/// The byte form of consecutive frames.
pub open spec fn spec_encode_list(vs: Seq<CommandView>) -> Seq<u8>
    decreases vs, 1int,
{
    if vs.len() == 0 {
        Seq::empty()
    } else {
        spec_encode(vs[0]) + spec_encode_list(vs.drop_first())
    }
}

/// A frame value whose byte form decodes back to it: line payloads are free
/// of `\r` and `\n`, and lengths fit the machine.
pub open spec fn wf_cmd(c: CommandView) -> bool
    decreases c,
{
    match c {
        CommandView::SimpleString { value } => line_safe(value),
        CommandView::Error { value } => line_safe(value),
        CommandView::Integer { value } => true,
        CommandView::BulkString { value } => value.len() <= usize::MAX,
        CommandView::Null => true,
        CommandView::Array { values } => values.len() <= usize::MAX
            && forall|k: int| 0 <= k < values.len() ==> wf_cmd(#[trigger] values[k]),
    }
}

/// Free of the line terminator bytes.
pub open spec fn line_safe(p: Seq<u8>) -> bool {
    forall|k: int| 0 <= k < p.len() ==> p[k] != 13 && p[k] != 10
}

/// Free of `\r` alone: what the line scanner guarantees of every payload it
/// reads, and all the codec round trip needs of one.
pub open spec fn scan_safe(p: Seq<u8>) -> bool {
    forall|k: int| 0 <= k < p.len() ==> p[k] != 13
}

/// What every decoded frame satisfies: line payloads hold no `\r` and
/// lengths fit the machine. Weaker than `wf_cmd`, and enough for the byte
/// form to decode back to the frame.
pub open spec fn dec_wf(c: CommandView) -> bool
    decreases c,
{
    match c {
        CommandView::SimpleString { value } => scan_safe(value),
        CommandView::Error { value } => scan_safe(value),
        CommandView::Integer { value } => true,
        CommandView::BulkString { value } => value.len() <= usize::MAX,
        CommandView::Null => true,
        CommandView::Array { values } => values.len() <= usize::MAX
            && forall|k: int| 0 <= k < values.len() ==> dec_wf(#[trigger] values[k]),
    }
}

/// A well-formed frame is in particular decodable from its byte form.
pub proof fn lemma_wf_implies_dec_wf(c: CommandView)
    ensures
        wf_cmd(c) ==> dec_wf(c),
    decreases c,
{
    match c {
        CommandView::Array { values } => {
            assert forall|k: int| 0 <= k < values.len() && wf_cmd(c) implies dec_wf(#[trigger] values[k]) by {
                lemma_wf_implies_dec_wf(values[k]);
            }
        },
        _ => {},
    }
}

/// Every encoded frame is at least a type byte and a terminator long.
pub proof fn lemma_encode_len(c: CommandView)
    ensures
        spec_encode(c).len() >= 3,
{
    match c {
        CommandView::Integer { value } => {
            if value < 0 {
                lemma_dec_digits_are_digits((-(value as int)) as nat);
            } else {
                lemma_dec_digits_are_digits(value as nat);
            }
        },
        CommandView::BulkString { value } => {
            lemma_dec_digits_are_digits(value.len());
        },
        CommandView::Array { values } => {
            lemma_dec_digits_are_digits(values.len());
        },
        _ => {},
    }
}

/// A line whose payload and terminator stand verbatim in `s` parses exactly.
proof fn lemma_parse_line_exact(s: Seq<u8>, i: int, p: Seq<u8>)
    requires
        0 <= i,
        i + p.len() + 2 <= s.len(),
        forall|k: int| 0 <= k < p.len() ==> s[i + k] == p[k] && p[k] != 13,
        s[i + p.len()] == 13,
        s[i + p.len() + 1] == 10,
    ensures
        spec_parse_line(s, i) == Ok::<(Seq<u8>, int), ParserError>((p, i + p.len() + 2)),
    decreases p.len(),
{
    if p.len() == 0 {
        assert(s[i] == 13);
        assert(p =~= Seq::<u8>::empty());
    } else {
        assert(s[i] == p[0]);
        let q = p.drop_first();
        assert forall|k: int| 0 <= k < q.len() implies s[i + 1 + k] == q[k] && q[k] != 13 by {
            assert(q[k] == p[k + 1]);
            assert(s[i + 1 + k] == p[k + 1]);
        }
        lemma_parse_line_exact(s, i + 1, q);
        assert(seq![s[i]] + q =~= p);
    }
}

/// Reading back the canonical digit string of an `i64`.
proof fn lemma_parse_int_bytes(v: i64)
    ensures
        spec_parse_i64(spec_int_bytes(v)) == Some(v),
        line_safe(spec_int_bytes(v)),
        spec_int_bytes(v).len() >= 1,
{
    if v < 0 {
        let m = (-(v as int)) as nat;
        lemma_dec_digits_are_digits(m);
        lemma_dec_digits_value(m);
        let p = spec_int_bytes(v);
        let d = p.subrange(1, p.len() as int);
        assert(d =~= dec_digits(m));
        assert(p[0] == 45);
        assert(m <= 0x8000_0000_0000_0000);
        assert(spec_parse_i64(p) == Some((-(m as int)) as i64));
        assert forall|k: int| 0 <= k < p.len() implies p[k] != 13 && p[k] != 10 by {
            if k >= 1 {
                assert(is_digit(dec_digits(m)[k - 1]));
            }
        }
    } else {
        let m = v as nat;
        lemma_dec_digits_are_digits(m);
        lemma_dec_digits_value(m);
        let p = spec_int_bytes(v);
        assert(p =~= dec_digits(m));
        assert(is_digit(p[0]));
        assert(p[0] != 45);
        assert forall|k: int| 0 <= k < p.len() implies p[k] != 13 && p[k] != 10 by {
            assert(is_digit(p[k]));
        }
    }
}

/// The canonical digit string of a length is never the null marker `-1`.
proof fn lemma_dec_digits_not_null_marker(n: nat)
    ensures
        dec_digits(n) != seq![45u8, 49u8],
        line_safe(dec_digits(n)),
        valid_len_payload(dec_digits(n)) <==> n <= usize::MAX,
{
    lemma_dec_digits_are_digits(n);
    lemma_dec_digits_value(n);
    if dec_digits(n) == seq![45u8, 49u8] {
        assert(is_digit(dec_digits(n)[0]));
    }
    assert forall|k: int| 0 <= k < dec_digits(n).len() implies dec_digits(n)[k] != 13 && dec_digits(n)[k] != 10 by {
        assert(is_digit(dec_digits(n)[k]));
    }
}

/// Decoding a well-formed frame's byte form, standing at `i` inside `s` with
/// anything at all after it, yields the frame back and consumes exactly it.
pub proof fn lemma_parse_encoded(c: CommandView, s: Seq<u8>, i: int)
    requires
        dec_wf(c),
        0 <= i,
        i + spec_encode(c).len() <= s.len(),
        s.subrange(i, i + spec_encode(c).len() as int) == spec_encode(c),
    ensures
        spec_parse(s, i) == Ok::<(CommandView, int), ParserError>((c, i + spec_encode(c).len())),
    decreases c, 0int,
{
    let e = spec_encode(c);
    assert forall|k: int| 0 <= k < e.len() implies s[i + k] == #[trigger] e[k] by {
        assert(s.subrange(i, i + e.len() as int)[k] == s[i + k]);
    }
    match c {
        CommandView::SimpleString { value } => {
            assert(e[0] == 43);
            assert(s[i + 0] == e[0]);
            assert(e == seq![43u8] + value + crlf());
            assert forall|k: int| 0 <= k < value.len() implies s[i + 1 + k] == value[k] && value[k] != 13 by {
                assert(e[1 + k] == value[k]);
            }
            assert(s[i + 1 + value.len()] == 13 && s[i + 1 + value.len() + 1] == 10) by {
                assert(e[1 + value.len() as int] == 13);
                assert(e[1 + value.len() as int + 1] == 10);
            }
            lemma_parse_line_exact(s, i + 1, value);
        },
        CommandView::Error { value } => {
            assert(e[0] == 45);
            assert(s[i + 0] == e[0]);
            assert(e == seq![45u8] + value + crlf());
            assert forall|k: int| 0 <= k < value.len() implies s[i + 1 + k] == value[k] && value[k] != 13 by {
                assert(e[1 + k] == value[k]);
            }
            assert(s[i + 1 + value.len()] == 13 && s[i + 1 + value.len() + 1] == 10) by {
                assert(e[1 + value.len() as int] == 13);
                assert(e[1 + value.len() as int + 1] == 10);
            }
            lemma_parse_line_exact(s, i + 1, value);
        },
        CommandView::Integer { value } => {
            assert(e[0] == 58);
            assert(s[i + 0] == e[0]);
            lemma_parse_int_bytes(value);
            let p = spec_int_bytes(value);
            assert(e == seq![58u8] + p + crlf());
            assert forall|k: int| 0 <= k < p.len() implies s[i + 1 + k] == p[k] && p[k] != 13 by {
                assert(e[1 + k] == p[k]);
            }
            assert(s[i + 1 + p.len()] == 13 && s[i + 1 + p.len() + 1] == 10) by {
                assert(e[1 + p.len() as int] == 13);
                assert(e[1 + p.len() as int + 1] == 10);
            }
            lemma_parse_line_exact(s, i + 1, p);
        },
        CommandView::BulkString { value } => {
            assert(e[0] == 36);
            assert(s[i + 0] == e[0]);
            let d = dec_digits(value.len());
            assert(e == seq![36u8] + d + crlf() + value + crlf());
            lemma_dec_digits_not_null_marker(value.len());
            lemma_dec_digits_value(value.len());
            assert forall|k: int| 0 <= k < d.len() implies s[i + 1 + k] == d[k] && d[k] != 13 by {
                assert(e[1 + k] == d[k]);
            }
            assert(s[i + 1 + d.len()] == 13 && s[i + 1 + d.len() + 1] == 10) by {
                assert(e[1 + d.len() as int] == 13);
                assert(e[1 + d.len() as int + 1] == 10);
            }
            lemma_parse_line_exact(s, i + 1, d);
            let hend = i + 1 + d.len() + 2;
            let n = value.len() as int;
            assert(s.subrange(hend, hend + n) =~= value) by {
                assert forall|k: int| 0 <= k < n implies s[hend + k] == value[k] by {
                    assert(e[1 + d.len() + 2 + k] == value[k]);
                }
            }
            assert(s[hend + n] == 13 && s[hend + n + 1] == 10) by {
                assert(e[1 + d.len() + 2 + n] == 13);
                assert(e[1 + d.len() + 2 + n + 1] == 10);
            }
        },
        CommandView::Null => {
            assert(e[0] == 36);
            assert(s[i + 0] == e[0]);
            assert(e == seq![36u8, 45u8, 49u8] + crlf());
            assert(e[1] == 45 && e[2] == 49 && e[3] == 13 && e[4] == 10);
            let p = seq![45u8, 49u8];
            assert(s[i + 1] == e[1] && s[i + 2] == e[2] && s[i + 3] == e[3] && s[i + 4] == e[4]);
            assert forall|k: int| 0 <= k < p.len() implies s[i + 1 + k] == p[k] && p[k] != 13 by {
                if k == 0 {
                    assert(s[i + 1] == 45);
                } else {
                    assert(k == 1);
                    assert(s[i + 2] == 49);
                }
            }
            assert(s[i + 1 + p.len()] == 13);
            assert(s[i + 1 + p.len() + 1] == 10);
            lemma_parse_line_exact(s, i + 1, p);
            assert(spec_parse_line(s, i + 1) == Ok::<(Seq<u8>, int), ParserError>((p, i + 5)));
        },
        CommandView::Array { values } => {
            assert(e[0] == 42);
            assert(s[i + 0] == e[0]);
            let d = dec_digits(values.len());
            assert(e == seq![42u8] + d + crlf() + spec_encode_list(values));
            lemma_dec_digits_not_null_marker(values.len());
            lemma_dec_digits_value(values.len());
            assert forall|k: int| 0 <= k < d.len() implies s[i + 1 + k] == d[k] && d[k] != 13 by {
                assert(e[1 + k] == d[k]);
            }
            assert(s[i + 1 + d.len()] == 13 && s[i + 1 + d.len() + 1] == 10) by {
                assert(e[1 + d.len() as int] == 13);
                assert(e[1 + d.len() as int + 1] == 10);
            }
            lemma_parse_line_exact(s, i + 1, d);
            let hend = i + 1 + d.len() + 2;
            let body = spec_encode_list(values);
            assert(s.subrange(hend, hend + body.len()) =~= body) by {
                assert forall|k: int| 0 <= k < body.len() implies s[hend + k] == body[k] by {
                    assert(e[1 + d.len() + 2 + k] == body[k]);
                }
            }
            lemma_parse_encoded_list(values, s, hend);
        },
    }
}

/// Decoding the byte form of `n` consecutive well-formed frames.
pub proof fn lemma_parse_encoded_list(vs: Seq<CommandView>, s: Seq<u8>, i: int)
    requires
        forall|k: int| 0 <= k < vs.len() ==> dec_wf(#[trigger] vs[k]),
        0 <= i,
        i + spec_encode_list(vs).len() <= s.len(),
        s.subrange(i, i + spec_encode_list(vs).len() as int) == spec_encode_list(vs),
    ensures
        spec_parse_elems(s, i, vs.len()) == Ok::<(Seq<CommandView>, int), ParserError>((vs, i + spec_encode_list(vs).len())),
    decreases vs, 1int,
{
    if vs.len() == 0 {
        assert(spec_encode_list(vs).len() == 0);
        assert(vs =~= Seq::<CommandView>::empty());
    } else {
        let c = vs[0];
        let rest = vs.drop_first();
        let e0 = spec_encode(c);
        let erest = spec_encode_list(rest);
        assert(spec_encode_list(vs) == e0 + erest);
        assert forall|k: int| 0 <= k < e0.len() + erest.len() implies s[i + k] == #[trigger] (e0 + erest)[k] by {
            assert(s.subrange(i, i + spec_encode_list(vs).len() as int)[k] == s[i + k]);
        }
        assert forall|k: int| 0 <= k < e0.len() implies s.subrange(i, i + e0.len() as int)[k] == e0[k] by {
            assert((e0 + erest)[k] == e0[k]);
            assert(s[i + k] == (e0 + erest)[k]);
        }
        assert(s.subrange(i, i + e0.len() as int) =~= e0);
        lemma_encode_len(c);
        lemma_parse_encoded(c, s, i);
        let j = i + e0.len();
        assert forall|k: int| 0 <= k < erest.len() implies s.subrange(j, j + erest.len() as int)[k] == erest[k] by {
            assert((e0 + erest)[e0.len() + k] == erest[k]);
            assert(s[i + (e0.len() + k)] == (e0 + erest)[e0.len() + k]);
        }
        assert(s.subrange(j, j + erest.len() as int) =~= erest);
        lemma_parse_encoded_list(rest, s, j);
        assert(seq![c] + rest =~= vs);
        assert(spec_parse_elems(s, i, vs.len()) == Ok::<(Seq<CommandView>, int), ParserError>((vs, i + spec_encode_list(vs).len())));
    }
}

/// A strict prefix of a line region parses as "more bytes needed".
proof fn lemma_parse_line_prefix(s: Seq<u8>, i: int, p: Seq<u8>)
    requires
        0 <= i <= s.len(),
        s.len() - i < p.len() + 2,
        forall|k: int| 0 <= k < s.len() - i ==> s[i + k] == #[trigger] (p + crlf())[k],
        scan_safe(p),
    ensures
        spec_parse_line(s, i) == Err::<(Seq<u8>, int), ParserError>(ParserError::UnexpectedEOF),
    decreases s.len() - i,
{
    if i < s.len() {
        if p.len() == 0 {
            assert(s[i + 0] == (p + crlf())[0]);
            assert((p + crlf())[0] == 13);
        } else {
            assert(s[i + 0] == (p + crlf())[0]);
            assert((p + crlf())[0] == p[0]);
            assert(p[0] != 13);
            let q = p.drop_first();
            assert forall|k: int| 0 <= k < s.len() - (i + 1) implies s[i + 1 + k] == #[trigger] (q + crlf())[k] by {
                if k < q.len() {
                    assert((q + crlf())[k] == p[k + 1]);
                } else {
                    assert((q + crlf())[k] == crlf()[k - q.len()]);
                    assert((p + crlf())[k + 1] == crlf()[k + 1 - p.len()]);
                }
                assert(s[i + (k + 1)] == (p + crlf())[k + 1]);
            }
            lemma_parse_line_prefix(s, i + 1, q);
        }
    }
}

/// A strict prefix of a well-formed frame's byte form decodes as "more bytes
/// needed": never as a frame, never as a hard error.
pub proof fn lemma_parse_prefix_incomplete(c: CommandView, s: Seq<u8>, i: int)
    requires
        dec_wf(c),
        0 <= i <= s.len(),
        s.len() - i < spec_encode(c).len(),
        s.subrange(i, s.len() as int) == spec_encode(c).take(s.len() - i),
    ensures
        match spec_parse(s, i) {
            Ok(_) => false,
            Err(e) => is_incomplete(e),
        },
    decreases c, 0int,
{
    let e = spec_encode(c);
    let avail = s.len() - i;
    assert forall|k: int| 0 <= k < avail implies s[i + k] == #[trigger] e[k] by {
        assert(s.subrange(i, s.len() as int)[k] == s[i + k]);
        assert(e.take(avail)[k] == e[k]);
    }
    if avail == 0 {
        return;
    }
    match c {
        CommandView::SimpleString { value } => {
            assert(e[0] == 43);
            assert(s[i + 0] == e[0]);
            assert(e =~= seq![43u8] + (value + crlf()));
            assert forall|k: int| 0 <= k < s.len() - (i + 1) implies s[i + 1 + k] == #[trigger] (value + crlf())[k] by {
                assert(e[1 + k] == (value + crlf())[k]);
                assert(s[i + (1 + k)] == e[1 + k]);
            }
            lemma_parse_line_prefix(s, i + 1, value);
        },
        CommandView::Error { value } => {
            assert(e[0] == 45);
            assert(s[i + 0] == e[0]);
            assert(e =~= seq![45u8] + (value + crlf()));
            assert forall|k: int| 0 <= k < s.len() - (i + 1) implies s[i + 1 + k] == #[trigger] (value + crlf())[k] by {
                assert(e[1 + k] == (value + crlf())[k]);
                assert(s[i + (1 + k)] == e[1 + k]);
            }
            lemma_parse_line_prefix(s, i + 1, value);
        },
        CommandView::Integer { value } => {
            assert(e[0] == 58);
            assert(s[i + 0] == e[0]);
            lemma_parse_int_bytes(value);
            let p = spec_int_bytes(value);
            assert(e =~= seq![58u8] + (p + crlf()));
            assert forall|k: int| 0 <= k < s.len() - (i + 1) implies s[i + 1 + k] == #[trigger] (p + crlf())[k] by {
                assert(e[1 + k] == (p + crlf())[k]);
                assert(s[i + (1 + k)] == e[1 + k]);
            }
            lemma_parse_line_prefix(s, i + 1, p);
        },
        CommandView::Null => {
            assert(e[0] == 36);
            assert(s[i + 0] == e[0]);
            let p = seq![45u8, 49u8];
            assert(e =~= seq![36u8] + (p + crlf()));
            assert forall|k: int| 0 <= k < s.len() - (i + 1) implies s[i + 1 + k] == #[trigger] (p + crlf())[k] by {
                assert(e[1 + k] == (p + crlf())[k]);
                assert(s[i + (1 + k)] == e[1 + k]);
            }
            assert(scan_safe(p));
            lemma_parse_line_prefix(s, i + 1, p);
        },
        CommandView::BulkString { value } => {
            assert(e[0] == 36);
            assert(s[i + 0] == e[0]);
            let d = dec_digits(value.len());
            lemma_dec_digits_not_null_marker(value.len());
            lemma_dec_digits_value(value.len());
            assert(e == seq![36u8] + d + crlf() + value + crlf());
            let hlen = 1 + d.len() + 2;
            if avail < hlen {
                assert forall|k: int| 0 <= k < s.len() - (i + 1) implies s[i + 1 + k] == #[trigger] (d + crlf())[k] by {
                    if k < d.len() {
                        assert(e[1 + k] == d[k]);
                    } else {
                        assert(e[1 + k] == crlf()[k - d.len()]);
                    }
                    assert(s[i + (1 + k)] == e[1 + k]);
                }
                lemma_parse_line_prefix(s, i + 1, d);
            } else {
                assert forall|k: int| 0 <= k < d.len() implies s[i + 1 + k] == d[k] && d[k] != 13 by {
                    assert(e[1 + k] == d[k]);
                    assert(s[i + (1 + k)] == e[1 + k]);
                }
                assert(s[i + 1 + d.len()] == 13 && s[i + 1 + d.len() + 1] == 10) by {
                    assert(e[1 + d.len() as int] == 13);
                    assert(s[i + (1 + d.len() as int)] == e[1 + d.len() as int]);
                    assert(e[1 + d.len() as int + 1] == 10);
                    assert(s[i + (1 + d.len() as int + 1)] == e[1 + d.len() as int + 1]);
                }
                lemma_parse_line_exact(s, i + 1, d);
            }
        },
        CommandView::Array { values } => {
            assert(e[0] == 42);
            assert(s[i + 0] == e[0]);
            let d = dec_digits(values.len());
            lemma_dec_digits_not_null_marker(values.len());
            lemma_dec_digits_value(values.len());
            let body = spec_encode_list(values);
            assert(e == seq![42u8] + d + crlf() + body);
            let hlen = 1 + d.len() + 2;
            if avail < hlen {
                assert forall|k: int| 0 <= k < s.len() - (i + 1) implies s[i + 1 + k] == #[trigger] (d + crlf())[k] by {
                    if k < d.len() {
                        assert(e[1 + k] == d[k]);
                    } else {
                        assert(e[1 + k] == crlf()[k - d.len()]);
                    }
                    assert(s[i + (1 + k)] == e[1 + k]);
                }
                lemma_parse_line_prefix(s, i + 1, d);
            } else {
                assert forall|k: int| 0 <= k < d.len() implies s[i + 1 + k] == d[k] && d[k] != 13 by {
                    assert(e[1 + k] == d[k]);
                    assert(s[i + (1 + k)] == e[1 + k]);
                }
                assert(s[i + 1 + d.len()] == 13 && s[i + 1 + d.len() + 1] == 10) by {
                    assert(e[1 + d.len() as int] == 13);
                    assert(s[i + (1 + d.len() as int)] == e[1 + d.len() as int]);
                    assert(e[1 + d.len() as int + 1] == 10);
                    assert(s[i + (1 + d.len() as int + 1)] == e[1 + d.len() as int + 1]);
                }
                lemma_parse_line_exact(s, i + 1, d);
                let end = i + hlen;
                assert forall|k: int| 0 <= k < s.len() - end implies s.subrange(end, s.len() as int)[k] == #[trigger] body.take(s.len() - end)[k] by {
                    assert(e[hlen + k] == body[k]);
                    assert(s[i + (hlen + k)] == e[hlen + k]);
                    assert(s.subrange(end, s.len() as int)[k] == s[end + k]);
                }
                assert(s.subrange(end, s.len() as int) =~= body.take(s.len() - end));
                lemma_parse_elems_prefix(values, s, end);
            }
        },
    }
}

/// A strict prefix of the byte form of consecutive well-formed frames
/// decodes as "more bytes needed".
proof fn lemma_parse_elems_prefix(vs: Seq<CommandView>, s: Seq<u8>, i: int)
    requires
        forall|k: int| 0 <= k < vs.len() ==> dec_wf(#[trigger] vs[k]),
        0 <= i <= s.len(),
        s.len() - i < spec_encode_list(vs).len(),
        s.subrange(i, s.len() as int) == spec_encode_list(vs).take(s.len() - i),
    ensures
        match spec_parse_elems(s, i, vs.len()) {
            Ok(_) => false,
            Err(e) => is_incomplete(e),
        },
    decreases vs, 1int,
{
    let body = spec_encode_list(vs);
    let avail = s.len() - i;
    assert(vs.len() > 0);
    assert forall|k: int| 0 <= k < avail implies s[i + k] == #[trigger] body[k] by {
        assert(s.subrange(i, s.len() as int)[k] == s[i + k]);
        assert(body.take(avail)[k] == body[k]);
    }
    if avail == 0 {
        return;
    }
    let c = vs[0];
    let rest = vs.drop_first();
    let e0 = spec_encode(c);
    let erest = spec_encode_list(rest);
    assert(body == e0 + erest);
    if avail < e0.len() {
        assert forall|k: int| 0 <= k < avail implies s.subrange(i, s.len() as int)[k] == #[trigger] e0.take(avail)[k] by {
            assert(body[k] == e0[k]);
            assert(s.subrange(i, s.len() as int)[k] == s[i + k]);
        }
        assert(s.subrange(i, s.len() as int) =~= e0.take(avail));
        lemma_parse_prefix_incomplete(c, s, i);
    } else {
        assert forall|k: int| 0 <= k < e0.len() implies s.subrange(i, i + e0.len() as int)[k] == e0[k] by {
            assert(body[k] == e0[k]);
            assert(s.subrange(i, i + e0.len() as int)[k] == s[i + k]);
        }
        assert(s.subrange(i, i + e0.len() as int) =~= e0);
        lemma_encode_len(c);
        lemma_parse_encoded(c, s, i);
        let j = i + e0.len();
        assert forall|k: int| 0 <= k < s.len() - j implies s.subrange(j, s.len() as int)[k] == #[trigger] erest.take(s.len() - j)[k] by {
            assert(body[e0.len() + k] == erest[k]);
            assert(s[i + (e0.len() + k)] == body[e0.len() + k]);
            assert(s.subrange(j, s.len() as int)[k] == s[j + k]);
        }
        assert(s.subrange(j, s.len() as int) =~= erest.take(s.len() - j));
        lemma_parse_elems_prefix(rest, s, j);
    }
}

/// Splitting the byte form of a well-formed frame at any boundary, the first
/// half alone decodes as "more bytes needed" — never as a frame and never as
/// a hard error — while the whole decodes to the frame itself.
pub proof fn lemma_streaming_split(c: CommandView, n: int)
    requires
        wf_cmd(c),
        0 <= n < spec_encode(c).len(),
    ensures
        match spec_parse(spec_encode(c).take(n), 0) {
            Ok(_) => false,
            Err(e) => is_incomplete(e),
        },
        spec_parse(spec_encode(c), 0) == Ok::<(CommandView, int), ParserError>((c, spec_encode(c).len() as int)),
{
    lemma_wf_implies_dec_wf(c);
    let e = spec_encode(c);
    let s = e.take(n);
    assert(s.subrange(0, s.len() as int) =~= e.take(s.len() - 0));
    lemma_parse_prefix_incomplete(c, s, 0);
    lemma_round_trip(c);
}

/// Every decoded frame is decodable from its own byte form.
pub proof fn lemma_parse_dec_wf(s: Seq<u8>, i: int)
    requires
        0 <= i <= s.len(),
    ensures
        spec_parse(s, i) matches Ok((c, j)) ==> dec_wf(c),
    decreases s.len() - i, 1int, 0int,
{
    if i < s.len() {
        lemma_parse_line_props(s, i + 1);
        if s[i] == 43 || s[i] == 45 {
            match spec_parse_line(s, i + 1) {
                Ok((p, end)) => {
                    assert(scan_safe(p));
                },
                Err(_) => {},
            }
        } else if s[i] == 42 {
            match spec_parse_line(s, i + 1) {
                Ok((p, end)) => {
                    if valid_len_payload(p) && i < end <= s.len() {
                        lemma_parse_elems_dec_wf(s, end, dec_value(p));
                    }
                },
                Err(_) => {},
            }
        }
    }
}

/// Every frame of a decoded run is decodable from its own byte form.
proof fn lemma_parse_elems_dec_wf(s: Seq<u8>, i: int, n: nat)
    requires
        0 <= i <= s.len(),
    ensures
        spec_parse_elems(s, i, n) matches Ok((vs, e)) ==> {
            &&& vs.len() == n
            &&& forall|k: int| 0 <= k < vs.len() ==> dec_wf(#[trigger] vs[k])
        },
    decreases s.len() - i, 2int, n,
{
    if n != 0 {
        lemma_parse_dec_wf(s, i);
        match spec_parse(s, i) {
            Ok((c, j)) => {
                if i < j <= s.len() {
                    lemma_parse_elems_dec_wf(s, j, (n - 1) as nat);
                    match spec_parse_elems(s, j, (n - 1) as nat) {
                        Ok((vs, e)) => {
                            assert forall|k: int| 0 <= k < (seq![c] + vs).len()
                                implies dec_wf(#[trigger] (seq![c] + vs)[k]) by {
                                if k > 0 {
                                    assert((seq![c] + vs)[k] == vs[k - 1]);
                                }
                            }
                        },
                        Err(_) => {},
                    }
                }
            },
            Err(_) => {},
        }
    }
}

/// Encoding is idempotent up to canonicalisation: whatever byte sequence a
/// frame was decoded from, the frame's own byte form decodes back to exactly
/// that frame, consuming the whole of it.
pub proof fn lemma_decode_encode(s: Seq<u8>)
    ensures
        spec_parse(s, 0) matches Ok((c, j))
            ==> spec_parse(spec_encode(c), 0) == Ok::<(CommandView, int), ParserError>((c, spec_encode(c).len() as int)),
{
    match spec_parse(s, 0) {
        Ok((c, j)) => {
            lemma_parse_dec_wf(s, 0);
            let e = spec_encode(c);
            assert(e.subrange(0, e.len() as int) =~= e);
            lemma_parse_encoded(c, e, 0);
        },
        Err(_) => {},
    }
}

/// Decoding the byte form of a well-formed frame gives the frame back,
/// consuming the whole buffer.
pub proof fn lemma_round_trip(c: CommandView)
    requires
        wf_cmd(c),
    ensures
        spec_parse(spec_encode(c), 0) == Ok::<(CommandView, int), ParserError>((c, spec_encode(c).len() as int)),
{
    lemma_wf_implies_dec_wf(c);
    let e = spec_encode(c);
    assert(e.subrange(0, e.len() as int) =~= e);
    lemma_parse_encoded(c, e, 0);
}

/// Appends a slice to a byte buffer.
pub fn push_bytes(out: &mut Vec<u8>, b: &[u8])
    ensures
        final(out)@ == old(out)@ + b@,
{
    let ghost pre = out@;
    let mut k: usize = 0;
    #[verifier::loop_isolation(false)]
    while k < b.len()
        invariant
            k <= b@.len(),
            out@ == pre + b@.take(k as int),
        decreases b@.len() - k,
    {
        proof {
            assert(pre + b@.take(k as int) + seq![b@[k as int]] =~= pre + b@.take(k + 1));
        }
        out.push(b[k]);
        k = k + 1;
    }
    proof {
        assert(pre + b@.take(b@.len() as int) =~= pre + b@);
    }
}

/// Appends the terminator `\r\n`.
pub(crate) fn push_crlf(out: &mut Vec<u8>)
    ensures
        final(out)@ == old(out)@ + crlf(),
{
    out.push(13);
    out.push(10);
    proof {
        assert(old(out)@.push(13).push(10) =~= old(out)@ + crlf());
    }
}

/// Appends the canonical decimal digit string of `n`.
pub(crate) fn push_dec_digits(out: &mut Vec<u8>, n: u64)
    ensures
        final(out)@ == old(out)@ + dec_digits(n as nat),
    decreases n,
{
    if n < 10 {
        out.push(48 + n as u8);
        proof {
            assert(old(out)@.push((48 + n) as u8) =~= old(out)@ + dec_digits(n as nat));
        }
    } else {
        push_dec_digits(out, n / 10);
        out.push(48 + (n % 10) as u8);
        proof {
            assert((n / 10) as nat == (n as nat) / 10);
            assert((n % 10) as nat == (n as nat) % 10);
            assert(old(out)@ + dec_digits((n / 10) as nat) + seq![(48 + (n % 10) as u8) as u8]
                =~= old(out)@ + dec_digits(n as nat));
        }
    }
}

/// Appends the digit string of an `i64`, minus sign included.
fn push_int_bytes(out: &mut Vec<u8>, v: i64)
    ensures
        final(out)@ == old(out)@ + spec_int_bytes(v),
{
    if v < 0 {
        out.push(45);
        let m: u64 = if v == i64::MIN {
            9223372036854775808u64
        } else {
            (0i64 - v) as u64
        };
        proof {
            assert(m as nat == (-(v as int)) as nat);
        }
        push_dec_digits(out, m);
        proof {
            assert(old(out)@.push(45u8) + dec_digits(m as nat) =~= old(out)@ + spec_int_bytes(v));
        }
    } else {
        push_dec_digits(out, v as u64);
        proof {
            assert((v as u64) as nat == v as nat);
        }
    }
}

/// Appends the byte form of one frame.
fn push_command(c: &Command, out: &mut Vec<u8>)
    ensures
        final(out)@ == old(out)@ + spec_encode(c@),
    decreases c,
{
    let ghost pre = out@;
    match c {
        Command::SimpleString { value } => {
            out.push(43);
            push_bytes(out, value.as_slice());
            push_crlf(out);
            proof {
                assert(pre.push(43u8) + value@ + crlf() =~= pre + spec_encode(c@));
            }
        },
        Command::Error { value } => {
            out.push(45);
            push_bytes(out, value.as_slice());
            push_crlf(out);
            proof {
                assert(pre.push(45u8) + value@ + crlf() =~= pre + spec_encode(c@));
            }
        },
        Command::Integer { value } => {
            out.push(58);
            push_int_bytes(out, *value);
            push_crlf(out);
            proof {
                assert(pre.push(58u8) + spec_int_bytes(*value) + crlf() =~= pre + spec_encode(c@));
            }
        },
        Command::BulkString { value } => {
            out.push(36);
            push_dec_digits(out, value.len() as u64);
            push_crlf(out);
            push_bytes(out, value.as_slice());
            push_crlf(out);
            proof {
                assert((value.len() as u64) as nat == value@.len());
                assert(pre.push(36u8) + dec_digits(value@.len()) + crlf() + value@ + crlf()
                    =~= pre + spec_encode(c@));
            }
        },
        Command::Null => {
            out.push(36);
            out.push(45);
            out.push(49);
            push_crlf(out);
            proof {
                assert(pre.push(36u8).push(45u8).push(49u8) + crlf() =~= pre + spec_encode(c@));
            }
        },
        Command::Array { values } => {
            out.push(42);
            push_dec_digits(out, values.len() as u64);
            push_crlf(out);
            let ghost hdr = pre + seq![42u8] + dec_digits(values@.len()) + crlf();
            proof {
                assert((values.len() as u64) as nat == values@.len());
                assert(pre.push(42u8) + dec_digits(values@.len()) + crlf() =~= hdr);
                lemma_cmd_views_props(values@);
            }
            let mut k: usize = 0;
            #[verifier::loop_isolation(false)]
            while k < values.len()
                invariant
                    k <= values@.len(),
                    out@ == hdr + spec_encode_list(cmd_views(values@).take(k as int)),
                decreases values@.len() - k,
            {
                proof {
                    if k == 0 {
                        assert(cmd_views(values@).take(0) =~= Seq::<CommandView>::empty());
                        assert(hdr + spec_encode_list(cmd_views(values@).take(0)) =~= hdr);
                    }
                }
                push_command(&values[k], out);
                proof {
                    lemma_encode_list_push(cmd_views(values@).take(k as int), cmd_view(values@[k as int]));
                    assert(cmd_views(values@).take(k as int).push(cmd_view(values@[k as int]))
                        =~= cmd_views(values@).take(k + 1));
                }
                k = k + 1;
            }
            proof {
                assert(cmd_views(values@).take(values@.len() as int) =~= cmd_views(values@));
                assert(hdr + spec_encode_list(cmd_views(values@)) =~= pre + spec_encode(c@));
            }
        },
    }
}

/// The byte form of consecutive frames grows one frame at a time.
pub proof fn lemma_encode_list_push(vs: Seq<CommandView>, c: CommandView)
    ensures
        spec_encode_list(vs.push(c)) == spec_encode_list(vs) + spec_encode(c),
    decreases vs.len(),
{
    if vs.len() == 0 {
        assert(vs.push(c)[0] == c);
        assert(vs.push(c).drop_first() =~= Seq::<CommandView>::empty());
        assert(spec_encode_list(vs.push(c)) == spec_encode(c) + spec_encode_list(Seq::<CommandView>::empty()));
        assert(spec_encode(c) + Seq::<u8>::empty() =~= spec_encode(c));
        assert(Seq::<u8>::empty() + spec_encode(c) =~= spec_encode(c));
    } else {
        assert(vs.push(c)[0] == vs[0]);
        assert(vs.push(c).drop_first() =~= vs.drop_first().push(c));
        lemma_encode_list_push(vs.drop_first(), c);
        assert(spec_encode(vs[0]) + (spec_encode_list(vs.drop_first()) + spec_encode(c))
            =~= (spec_encode(vs[0]) + spec_encode_list(vs.drop_first())) + spec_encode(c));
    }
}

/// Encodes one frame to its canonical byte form.
pub fn encode_command(c: &Command) -> (r: Vec<u8>)
    ensures
        r@ == spec_encode(c@),
{
    let mut out: Vec<u8> = Vec::new();
    push_command(c, &mut out);
    proof {
        assert(Seq::<u8>::empty() + spec_encode(c@) =~= spec_encode(c@));
    }
    out
}

} // verus!
