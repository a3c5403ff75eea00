use vstd::prelude::*;
use vstd::slice::slice_index_get;
use vstd::slice::slice_to_vec;

use crate::bytes::vec_eq;
use crate::parser::all_digits;
use crate::parser::dec_elems;
use crate::parser::dec_int;
use crate::parser::digits_val;
use crate::parser::lemma_digits_prefix_le;
use crate::parser::lemma_seq_model_index;
use crate::parser::lemma_seq_model_len;
use crate::parser::parse_elems;
use crate::parser::parse_int;
use crate::parser::seq_model;
use crate::parser::u64_field_val;
use crate::parser::ParsingError;
use crate::parser::Value;
use crate::parser::ValueModel;

verus! {

/// The closed set of requests the interpreter can produce.
#[derive(Debug, PartialEq)]
pub enum Command {
    Ping,
    Echo { print: Vec<u8> },
    Get { key: Vec<u8> },
    SetValue { key: Vec<u8>, value: Vec<u8>, expiry: Option<u64> },
    Unknown,
}

/// The mathematical model of a `Command`, with ghost sequences in
/// place of vectors; a `Set` expiry is a count of milliseconds.
pub enum CommandModel {
    Ping,
    Echo(Seq<u8>),
    Get(Seq<u8>),
    SetValue(Seq<u8>, Seq<u8>, Option<u64>),
    Unknown,
}

/// The model of a concrete `Command`.
pub open spec fn command_model(c: Command) -> CommandModel {
    match c {
        Command::Ping => CommandModel::Ping,
        Command::Echo { print } => CommandModel::Echo(print@),
        Command::Get { key } => CommandModel::Get(key@),
        Command::SetValue { key, value, expiry } => CommandModel::SetValue(key@, value@, expiry),
        Command::Unknown => CommandModel::Unknown,
    }
}

/// The bytes of the command word `ping`.
pub open spec fn kw_ping() -> Seq<u8> {
    seq![0x70u8, 0x69u8, 0x6Eu8, 0x67u8]
}

/// The bytes of the command word `echo`.
pub open spec fn kw_echo() -> Seq<u8> {
    seq![0x65u8, 0x63u8, 0x68u8, 0x6Fu8]
}

/// The bytes of the command word `get`.
pub open spec fn kw_get() -> Seq<u8> {
    seq![0x67u8, 0x65u8, 0x74u8]
}

/// The bytes of the command word `set`.
pub open spec fn kw_set() -> Seq<u8> {
    seq![0x73u8, 0x65u8, 0x74u8]
}

/// The bytes of the option word `px`.
pub open spec fn kw_px() -> Seq<u8> {
    seq![0x70u8, 0x78u8]
}

/// The millisecond expiry carried by a `set` request: present exactly
/// when a `px` word is followed by a bulk string holding an unsigned
/// number, and absent otherwise.
pub open spec fn set_expiry(vs: Seq<ValueModel>) -> Option<u64> {
    if vs.len() >= 5 && vs[3] == ValueModel::Str(kw_px()) && vs[4] is Str {
        u64_field_val(vs[4]->Str_0)
    } else {
        None
    }
}

/// Classifying a decoded request line: the first element names the
/// command, the rest are its arguments.
pub open spec fn interpret(vs: Seq<ValueModel>) -> Result<CommandModel, ParsingError> {
    if vs.len() == 0 {
        Result::Err(ParsingError::FormatError)
    } else {
        match vs[0] {
            ValueModel::Str(name) => {
                if name == kw_ping() {
                    Result::Ok(CommandModel::Ping)
                } else if name == kw_echo() {
                    if vs.len() >= 2 && vs[1] is Str {
                        Result::Ok(CommandModel::Echo(vs[1]->Str_0))
                    } else {
                        Result::Err(ParsingError::FormatError)
                    }
                } else if name == kw_get() {
                    if vs.len() >= 2 && vs[1] is Str {
                        Result::Ok(CommandModel::Get(vs[1]->Str_0))
                    } else {
                        Result::Err(ParsingError::FormatError)
                    }
                } else if name == kw_set() {
                    if vs.len() >= 3 && vs[1] is Str && vs[2] is Str {
                        Result::Ok(
                            CommandModel::SetValue(vs[1]->Str_0, vs[2]->Str_0, set_expiry(vs)),
                        )
                    } else {
                        Result::Err(ParsingError::FormatError)
                    }
                } else {
                    Result::Ok(CommandModel::Unknown)
                }
            },
            _ => Result::Err(ParsingError::FormatError),
        }
    }
}

/// Interpreting a whole request buffer: it must open with a `*`, give
/// a positive element count, and decode into a request line that
/// classifies as a command.
pub open spec fn get_command_spec(s: Seq<u8>) -> Result<CommandModel, ParsingError> {
    if s.len() == 0 || s[0] != 0x2A {
        Result::Err(ParsingError::FormatError)
    } else {
        match dec_int(s, 1) {
            Result::Err(_) => Result::Err(ParsingError::FormatError),
            Result::Ok((m, p)) => {
                if m <= 0 {
                    Result::Err(ParsingError::FormatError)
                } else {
                    match dec_elems(s, p, m) {
                        Result::Err(e) => Result::Err(e),
                        Result::Ok((vs, _pend)) => interpret(vs),
                    }
                }
            },
        }
    }
}

/// How an executable command result corresponds to a point of the
/// interpretation model.
pub open spec fn command_result_models(
    r: Result<Command, ParsingError>,
    d: Result<CommandModel, ParsingError>,
) -> bool {
    match (r, d) {
        (Result::Ok(c), Result::Ok(cm)) => command_model(c) == cm,
        (Result::Err(e1), Result::Err(e2)) => e1 == e2,
        _ => false,
    }
}

/// Builds the two-byte word with the given bytes.
fn word2(b0: u8, b1: u8) -> (r: Vec<u8>)
    ensures
        r@ == seq![b0, b1],
{
    let mut v: Vec<u8> = Vec::new();
    v.push(b0);
    v.push(b1);
    proof {
        assert(v@ =~= seq![b0, b1]);
    }
    v
}

/// Builds the three-byte word with the given bytes.
fn word3(b0: u8, b1: u8, b2: u8) -> (r: Vec<u8>)
    ensures
        r@ == seq![b0, b1, b2],
{
    let mut v: Vec<u8> = Vec::new();
    v.push(b0);
    v.push(b1);
    v.push(b2);
    proof {
        assert(v@ =~= seq![b0, b1, b2]);
    }
    v
}

/// Builds the four-byte word with the given bytes.
fn word4(b0: u8, b1: u8, b2: u8, b3: u8) -> (r: Vec<u8>)
    ensures
        r@ == seq![b0, b1, b2, b3],
{
    let mut v: Vec<u8> = Vec::new();
    v.push(b0);
    v.push(b1);
    v.push(b2);
    v.push(b3);
    proof {
        assert(v@ =~= seq![b0, b1, b2, b3]);
    }
    v
}

/// Parses an unsigned decimal number with an optional leading `+`,
/// exactly as the expiry argument of `set` is read.
#[verifier::loop_isolation(false)]
pub fn parse_u64(b: &Vec<u8>) -> (r: Option<u64>)
    ensures
        r == u64_field_val(b@),
{
    let flen: usize = b.len();
    if flen == 0 {
        return None;
    }
    let start: usize = if b[0] == 0x2B { 1 } else { 0 };
    let ghost d = if b@[0] == 0x2B { b@.subrange(1, flen as int) } else { b@ };
    proof {
        if start == 1 {
            assert(d =~= b@.subrange(1, flen as int));
        }
    }
    if flen == start {
        return None;
    }
    let mut acc: u64 = 0;
    let mut i: usize = start;
    proof {
        assert(b@.subrange(start as int, start as int) =~= Seq::<u8>::empty());
        if start == 0 {
            assert(d =~= b@.subrange(0, flen as int));
        }
    }
    while i < flen
        invariant
            start <= i <= flen,
            acc == digits_val(b@.subrange(start as int, i as int)),
            all_digits(b@.subrange(start as int, i as int)),
        decreases flen - i,
    {
        let byte = b[i];
        let ghost pre = b@.subrange(start as int, i as int);
        let ghost ext = b@.subrange(start as int, i + 1);
        proof {
            assert(ext.drop_last() =~= pre);
        }
        if !(0x30 <= byte && byte <= 0x39) {
            proof {
                assert(d[i - start] == b@[i as int]);
                assert(!all_digits(d)) by {
                    if all_digits(d) {
                        assert(is_ascii_digit_at(d, i - start));
                    }
                }
            }
            return None;
        }
        let digit = (byte - 0x30) as u64;
        if acc > 0x1999999999999999 || (acc == 0x1999999999999999 && digit > 5) {
            proof {
                assert(digits_val(ext) == acc * 10 + digit);
                assert(all_digits(ext));
                if all_digits(d) {
                    lemma_digits_prefix_le(d, i + 1 - start);
                    assert(d.subrange(0, i + 1 - start) =~= ext);
                    assert(digits_val(d) > u64::MAX);
                }
            }
            return None;
        }
        acc = acc * 10 + digit;
        i = i + 1;
    }
    proof {
        assert(b@.subrange(start as int, flen as int) =~= d);
    }
    Some(acc)
}

/// States that a position of a digit sequence holds a digit; a helper
/// shape for instantiating `all_digits`.
pub open spec fn is_ascii_digit_at(s: Seq<u8>, i: int) -> bool {
    crate::parser::is_ascii_digit(s[i])
}

/// Reads one request from the buffer and classifies it. The buffer
/// must open with `*` and a positive element count; the first decoded
/// element names the command and the rest are its arguments.
#[verifier::loop_isolation(false)]
pub fn get_command(buffer: &[u8]) -> (r: Result<Command, ParsingError>)
    ensures
        command_result_models(r, get_command_spec(buffer@)),
        buffer@.len() == 0 || buffer@[0] != 0x2A ==> r == Result::<Command, ParsingError>::Err(
            ParsingError::FormatError,
        ),
{
    let n: usize = buffer.len();
    if n == 0 || *slice_index_get(buffer, 0) != 0x2A {
        return Result::Err(ParsingError::FormatError);
    }
    let (m, p): (i32, usize) = match parse_int(buffer, 1) {
        Result::Err(_) => {
            return Result::Err(ParsingError::FormatError);
        },
        Result::Ok((lenv, q)) => match lenv {
            Value::Int { value } => (value, q),
            _ => {
                proof {
                    assert(false);
                }
                return Result::Err(ParsingError::FormatError);
            },
        },
    };
    if m <= 0 {
        return Result::Err(ParsingError::FormatError);
    }
    let items: Vec<Value> = match parse_elems(buffer, p, m) {
        Result::Err(e) => {
            return Result::Err(e);
        },
        Result::Ok((vec, _)) => vec,
    };
    let ghost vs = seq_model(items@);
    proof {
        lemma_seq_model_len(items@);
    }
    if items.len() == 0 {
        return Result::Err(ParsingError::FormatError);
    }
    proof {
        lemma_seq_model_index(items@, 0);
    }
    let name: &Vec<u8> = match &items[0] {
        Value::String { value } => value,
        _ => {
            return Result::Err(ParsingError::FormatError);
        },
    };
    if vec_eq(name, &word4(0x70, 0x69, 0x6E, 0x67)) {
        return Result::Ok(Command::Ping);
    }
    if vec_eq(name, &word4(0x65, 0x63, 0x68, 0x6F)) {
        if items.len() < 2 {
            return Result::Err(ParsingError::FormatError);
        }
        proof {
            lemma_seq_model_index(items@, 1);
        }
        match &items[1] {
            Value::String { value } => {
                return Result::Ok(Command::Echo { print: slice_to_vec(value.as_slice()) });
            },
            _ => {
                return Result::Err(ParsingError::FormatError);
            },
        }
    }
    if vec_eq(name, &word3(0x67, 0x65, 0x74)) {
        if items.len() < 2 {
            return Result::Err(ParsingError::FormatError);
        }
        proof {
            lemma_seq_model_index(items@, 1);
        }
        match &items[1] {
            Value::String { value } => {
                return Result::Ok(Command::Get { key: slice_to_vec(value.as_slice()) });
            },
            _ => {
                return Result::Err(ParsingError::FormatError);
            },
        }
    }
    if vec_eq(name, &word3(0x73, 0x65, 0x74)) {
        if items.len() < 3 {
            return Result::Err(ParsingError::FormatError);
        }
        proof {
            lemma_seq_model_index(items@, 1);
            lemma_seq_model_index(items@, 2);
        }
        let key: Vec<u8> = match &items[1] {
            Value::String { value } => slice_to_vec(value.as_slice()),
            _ => {
                return Result::Err(ParsingError::FormatError);
            },
        };
        let value: Vec<u8> = match &items[2] {
            Value::String { value } => slice_to_vec(value.as_slice()),
            _ => {
                return Result::Err(ParsingError::FormatError);
            },
        };
        let mut expiry: Option<u64> = None;
        if items.len() > 3 {
            proof {
                lemma_seq_model_index(items@, 3);
            }
            if let Value::String { value: px_word } = &items[3] {
                if vec_eq(px_word, &word2(0x70, 0x78)) {
                    if items.len() > 4 {
                        proof {
                            lemma_seq_model_index(items@, 4);
                        }
                        if let Value::String { value: ms_word } = &items[4] {
                            expiry = parse_u64(ms_word);
                        }
                    }
                }
            }
        }
        proof {
            assert(expiry == set_expiry(vs));
        }
        return Result::Ok(Command::SetValue { key, value, expiry });
    }
    Result::Ok(Command::Unknown)
}

} // verus!
