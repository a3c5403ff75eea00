use vstd::prelude::*;
use vstd::slice::slice_index_get;
use vstd::slice::slice_subrange;
use vstd::slice::slice_to_vec;
use vstd::assert_by_contradiction;

verus! {

/// A decoded protocol unit: one of the four value shapes the wire
/// format can carry.
#[derive(Debug, PartialEq)]
pub enum Value {
    Int { value: i32 },
    String { value: Vec<u8> },
    Array { items: Vec<Value> },
    Null,
}

/// The mathematical model of a `Value`: the same tree, with ghost
/// sequences in place of vectors.
pub enum ValueModel {
    Int(int),
    Str(Seq<u8>),
    Arr(Seq<ValueModel>),
    Null,
}

/// The model of a concrete `Value` tree.
pub open spec fn value_model(v: Value) -> ValueModel
    decreases v,
{
    match v {
        Value::Int { value } => ValueModel::Int(value as int),
        Value::String { value } => ValueModel::Str(value@),
        Value::Array { items } => ValueModel::Arr(seq_model(items@)),
        Value::Null => ValueModel::Null,
    }
}

/// The models of a sequence of `Value` trees, element by element.
pub open spec fn seq_model(s: Seq<Value>) -> Seq<ValueModel>
    decreases s,
{
    if s.len() == 0 {
        Seq::empty()
    } else {
        seq_model(s.drop_last()).push(value_model(s.last()))
    }
}

/// Why a decode attempt failed.
#[derive(Debug, PartialEq)]
pub enum ParsingError {
    Utf8Error,
    NumberError,
    FormatError,
}

/// The least position `j >= pos` where a `\r\n` pair starts, if any.
pub open spec fn find_crlf(s: Seq<u8>, pos: int) -> Option<int>
    decreases s.len() - pos,
{
    if pos < 0 || pos + 1 >= s.len() {
        None
    } else if s[pos] == 0x0D && s[pos + 1] == 0x0A {
        Some(pos)
    } else {
        find_crlf(s, pos + 1)
    }
}

/// Whether `b` is an ASCII decimal digit.
pub open spec fn is_ascii_digit(b: u8) -> bool {
    0x30 <= b <= 0x39
}

/// Whether every byte of `s` is an ASCII decimal digit.
pub open spec fn all_digits(s: Seq<u8>) -> bool {
    forall|i: int| 0 <= i < s.len() ==> is_ascii_digit(s[i])
}

/// The number denoted by a most-significant-first digit sequence.
pub open spec fn digits_val(s: Seq<u8>) -> int
    decreases s.len(),
{
    if s.len() == 0 {
        0
    } else {
        digits_val(s.drop_last()) * 10 + (s.last() - 0x30)
    }
}

/// The signed integer denoted by an optionally signed digit field,
/// or `None` where the field is not of that shape.
pub open spec fn int_field_val(s: Seq<u8>) -> Option<int> {
    if s.len() == 0 {
        None
    } else if s[0] == 0x2D || s[0] == 0x2B {
        let d = s.subrange(1, s.len() as int);
        if d.len() > 0 && all_digits(d) {
            if s[0] == 0x2D {
                Some(-digits_val(d))
            } else {
                Some(digits_val(d))
            }
        } else {
            None
        }
    } else {
        if all_digits(s) {
            Some(digits_val(s))
        } else {
            None
        }
    }
}

/// The unsigned integer denoted by a digit field with an optional
/// leading `+`, or `None` where the field is not of that shape or the
/// value does not fit in a `u64`.
pub open spec fn u64_field_val(s: Seq<u8>) -> Option<u64> {
    if s.len() == 0 {
        None
    } else {
        let d = if s[0] == 0x2B { s.subrange(1, s.len() as int) } else { s };
        if d.len() > 0 && all_digits(d) && 0 <= digits_val(d) <= u64::MAX {
            Some(digits_val(d) as u64)
        } else {
            None
        }
    }
}

/// Decoding one integer field: the bytes from `pos` up to the first
/// `\r\n` must be an optionally signed decimal number in `i32` range;
/// on success the returned position sits just past the terminator.
pub open spec fn dec_int(s: Seq<u8>, pos: int) -> Result<(int, int), ParsingError> {
    match find_crlf(s, pos) {
        Option::None => Result::Err(ParsingError::FormatError),
        Option::Some(j) => {
            let field = s.subrange(pos, j);
            if !crate::utf8::is_valid_utf8(field) {
                Result::Err(ParsingError::Utf8Error)
            } else {
                match int_field_val(field) {
                    Option::Some(v) => {
                        if i32::MIN <= v <= i32::MAX {
                            Result::Ok((v, j + 2))
                        } else {
                            Result::Err(ParsingError::NumberError)
                        }
                    },
                    Option::None => Result::Err(ParsingError::NumberError),
                }
            }
        },
    }
}

/// Decoding one bulk string whose `$` marker sits just before `pos`:
/// a length field, then that many payload bytes and a terminator, or
/// the null sentinel for length -1.
pub open spec fn dec_bulk(s: Seq<u8>, pos: int) -> Result<(ValueModel, int), ParsingError> {
    match dec_int(s, pos) {
        Result::Err(e) => Result::Err(e),
        Result::Ok((n, p)) => {
            if n == -1 {
                if p + 2 <= s.len() && s[p] == 0x0D && s[p + 1] == 0x0A {
                    Result::Ok((ValueModel::Null, p + 2))
                } else {
                    Result::Err(ParsingError::FormatError)
                }
            } else if n < -1 {
                Result::Err(ParsingError::FormatError)
            } else {
                if p + n + 2 <= s.len() && s[p + n] == 0x0D && s[p + n + 1] == 0x0A {
                    let payload = s.subrange(p, p + n);
                    if crate::utf8::is_valid_utf8(payload) {
                        Result::Ok((ValueModel::Str(payload), p + n + 2))
                    } else {
                        Result::Err(ParsingError::Utf8Error)
                    }
                } else {
                    Result::Err(ParsingError::FormatError)
                }
            }
        },
    }
}

/// Decoding one value at `pos`: dispatch on the marker byte.
pub open spec fn dec(s: Seq<u8>, pos: int) -> Result<(ValueModel, int), ParsingError>
    decreases s.len() - pos, 0int, 2int,
{
    if pos < 0 || pos >= s.len() {
        Result::Err(ParsingError::FormatError)
    } else if s[pos] == 0x3A {
        match dec_int(s, pos + 1) {
            Result::Err(e) => Result::Err(e),
            Result::Ok((n, p)) => Result::Ok((ValueModel::Int(n), p)),
        }
    } else if s[pos] == 0x24 {
        dec_bulk(s, pos + 1)
    } else if s[pos] == 0x2A {
        dec_arr(s, pos + 1)
    } else {
        Result::Err(ParsingError::FormatError)
    }
}

/// Decoding one array whose `*` marker sits just before `pos`: an
/// element count, then that many values in sequence.
pub open spec fn dec_arr(s: Seq<u8>, pos: int) -> Result<(ValueModel, int), ParsingError>
    decreases s.len() - pos, 0int, 1int,
{
    match dec_int(s, pos) {
        Result::Err(e) => Result::Err(e),
        Result::Ok((m, p)) => {
            if m < 0 {
                Result::Err(ParsingError::FormatError)
            } else if !(pos < p <= s.len()) {
                Result::Err(ParsingError::FormatError)
            } else {
                match dec_elems(s, p, m) {
                    Result::Err(e) => Result::Err(e),
                    Result::Ok((vs, pend)) => Result::Ok((ValueModel::Arr(vs), pend)),
                }
            }
        },
    }
}

/// Decoding `m` consecutive values starting at `pos`.
pub open spec fn dec_elems(s: Seq<u8>, pos: int, m: int) -> Result<(Seq<ValueModel>, int), ParsingError>
    decreases s.len() - pos, m, 0int,
{
    if pos < 0 || m <= 0 {
        Result::Ok((Seq::empty(), pos))
    } else {
        match dec(s, pos) {
            Result::Err(e) => Result::Err(e),
            Result::Ok((v, p2)) => {
                if pos < p2 <= s.len() {
                    match dec_elems(s, p2, m - 1) {
                        Result::Err(e) => Result::Err(e),
                        Result::Ok((vs, pend)) => Result::Ok((seq![v] + vs, pend)),
                    }
                } else {
                    Result::Err(ParsingError::FormatError)
                }
            },
        }
    }
}

/// A digit sequence denotes a non-negative number.
pub proof fn lemma_digits_val_nonneg(s: Seq<u8>)
    requires
        all_digits(s),
    ensures
        digits_val(s) >= 0,
    decreases s.len(),
{
    if s.len() > 0 {
        lemma_digits_val_nonneg(s.drop_last());
    }
}

/// Dropping trailing digits never increases the denoted number.
pub proof fn lemma_digits_prefix_le(s: Seq<u8>, i: int)
    requires
        all_digits(s),
        0 <= i <= s.len(),
    ensures
        digits_val(s.subrange(0, i)) <= digits_val(s),
    decreases s.len() - i,
{
    if i == s.len() {
        assert(s.subrange(0, i) =~= s);
    } else {
        let a = s.subrange(0, i);
        let b = s.subrange(0, i + 1);
        assert(b.drop_last() =~= a);
        lemma_digits_val_nonneg(a);
        lemma_digits_prefix_le(s, i + 1);
    }
}

/// How an executable single-value result corresponds to a point of
/// the decode model.
pub open spec fn result_models(
    r: Result<(Value, usize), ParsingError>,
    d: Result<(ValueModel, int), ParsingError>,
) -> bool {
    match (r, d) {
        (Result::Ok((v, p)), Result::Ok((vm, q))) => value_model(v) == vm && p == q,
        (Result::Err(e1), Result::Err(e2)) => e1 == e2,
        _ => false,
    }
}

/// How an executable integer-field result corresponds to a point of
/// the integer-field model.
pub open spec fn int_result_models(
    r: Result<(Value, usize), ParsingError>,
    d: Result<(int, int), ParsingError>,
) -> bool {
    match (r, d) {
        (Result::Ok((v, p)), Result::Ok((n, q))) => {
            &&& v matches Value::Int { value } && value == n
            &&& p == q
        },
        (Result::Err(e1), Result::Err(e2)) => e1 == e2,
        _ => false,
    }
}

/// Decodes the integer field that starts at `pos`, whose marker byte
/// the caller has already consumed.
#[verifier::loop_isolation(false)]
pub fn parse_int(buffer: &[u8], pos: usize) -> (r: Result<(Value, usize), ParsingError>)
    ensures
        int_result_models(r, dec_int(buffer@, pos as int)),
        r is Ok ==> pos + 2 <= r->Ok_0.1 <= buffer@.len(),
{
    let n: usize = buffer.len();
    let mut j: usize = pos;
    while j < n && j + 1 < n && !(*slice_index_get(buffer, j) == 13 && *slice_index_get(buffer, j + 1) == 10)
        invariant
            pos <= j,
            n == buffer@.len(),
            find_crlf(buffer@, pos as int) == find_crlf(buffer@, j as int),
        decreases n - j,
    {
        j = j + 1;
    }
    if j >= n || j + 1 >= n {
        return Result::Err(ParsingError::FormatError);
    }
    let field = slice_subrange(buffer, pos, j);
    let flen: usize = field.len();
    if !crate::utf8::check_utf8(field) {
        return Result::Err(ParsingError::Utf8Error);
    }
    if flen == 0 {
        return Result::Err(ParsingError::NumberError);
    }
    let f0 = *slice_index_get(field, 0);
    let start: usize = if f0 == 0x2D || f0 == 0x2B { 1 } else { 0 };
    let negative = f0 == 0x2D;
    let ghost d = field@.subrange(start as int, flen as int);
    if flen == start {
        return Result::Err(ParsingError::NumberError);
    }
    let mut acc: u64 = 0;
    let mut i: usize = start;
    proof {
        assert(field@.subrange(start as int, start as int) =~= Seq::<u8>::empty());
    }
    while i < flen
        invariant
            start <= i <= flen,
            start <= 1,
            flen == field@.len(),
            acc == digits_val(field@.subrange(start as int, i as int)),
            acc <= 0x8000_0000,
            all_digits(field@.subrange(start as int, i as int)),
        decreases flen - i,
    {
        let b = *slice_index_get(field, i);
        let ghost pre = field@.subrange(start as int, i as int);
        let ghost ext = field@.subrange(start as int, i + 1);
        proof {
            assert(ext.drop_last() =~= pre);
        }
        if !(0x30 <= b && b <= 0x39) {
            proof {
                if start == 0 {
                    assert(d =~= field@);
                }
                assert(d[i - start] == field@[i as int]);
                assert_by_contradiction!(!all_digits(d), {
                    assert(is_ascii_digit(d[i - start]));
                });
            }
            return Result::Err(ParsingError::NumberError);
        }
        let digit = (b - 0x30) as u64;
        let nacc = acc * 10 + digit;
        proof {
            assert(digits_val(ext) == acc * 10 + digit);
            assert(all_digits(ext));
        }
        if nacc > 0x8000_0000 {
            proof {
                if start == 0 {
                    assert(d =~= field@);
                }
                if all_digits(d) {
                    lemma_digits_prefix_le(d, i + 1 - start);
                    assert(d.subrange(0, i + 1 - start) =~= ext);
                    assert(digits_val(d) >= nacc);
                }
            }
            return Result::Err(ParsingError::NumberError);
        }
        acc = nacc;
        i = i + 1;
    }
    proof {
        assert(field@.subrange(start as int, flen as int) =~= d);
        if start == 0 {
            assert(d =~= field@);
        }
    }
    let value: i32 = if negative {
        (-(acc as i64)) as i32
    } else {
        if acc > 0x7FFF_FFFF {
            return Result::Err(ParsingError::NumberError);
        }
        acc as i32
    };
    Result::Ok((Value::Int { value }, j + 2))
}

/// The models gathered so far, continued by a pending element-sequence
/// decode, together make up the whole element-sequence decode.
pub open spec fn elems_continue(
    s: Seq<u8>,
    p: int,
    m: int,
    done: Seq<ValueModel>,
    cur: int,
    left: int,
) -> bool {
    dec_elems(s, p, m) == (match dec_elems(s, cur, left) {
        Result::Ok((vs, pend)) => Result::<(Seq<ValueModel>, int), ParsingError>::Ok(
            (done + vs, pend),
        ),
        Result::Err(e) => Result::Err(e),
    })
}

/// Appending one tree to a sequence appends its model.
pub proof fn lemma_seq_model_push(s: Seq<Value>, v: Value)
    ensures
        seq_model(s.push(v)) == seq_model(s).push(value_model(v)),
{
    assert(s.push(v).drop_last() =~= s);
}

/// Decodes one value at `pos`, dispatching on the marker byte.
pub fn parse(buffer: &[u8], pos: usize) -> (r: Result<(Value, usize), ParsingError>)
    ensures
        result_models(r, dec(buffer@, pos as int)),
        r is Ok ==> pos < r->Ok_0.1 <= buffer@.len(),
    decreases buffer@.len() - pos, 0int,
{
    let n: usize = buffer.len();
    if pos >= n {
        return Result::Err(ParsingError::FormatError);
    }
    let b = *slice_index_get(buffer, pos);
    if b == 0x3A {
        match parse_int(buffer, pos + 1) {
            Result::Ok((v, p)) => Result::Ok((v, p)),
            Result::Err(e) => Result::Err(e),
        }
    } else if b == 0x24 {
        parse_bulk_string(buffer, pos + 1)
    } else if b == 0x2A {
        parse_array(buffer, pos + 1)
    } else {
        Result::Err(ParsingError::FormatError)
    }
}

/// Decodes a bulk string whose `$` marker the caller has consumed: a
/// length field, then the payload and its terminator, or the null
/// sentinel.
fn parse_bulk_string(buffer: &[u8], pos: usize) -> (r: Result<(Value, usize), ParsingError>)
    ensures
        result_models(r, dec_bulk(buffer@, pos as int)),
        r is Ok ==> pos < r->Ok_0.1 <= buffer@.len(),
{
    let n: usize = buffer.len();
    match parse_int(buffer, pos) {
        Result::Err(e) => Result::Err(e),
        Result::Ok((lenv, p)) => match lenv {
            Value::Int { value } => {
                if value == -1 {
                    if n - p >= 2 && *slice_index_get(buffer, p) == 13
                        && *slice_index_get(buffer, p + 1) == 10 {
                        Result::Ok((Value::Null, p + 2))
                    } else {
                        Result::Err(ParsingError::FormatError)
                    }
                } else if value < -1 {
                    Result::Err(ParsingError::FormatError)
                } else {
                    let len_u: usize = value as usize;
                    if n - p < 2 || n - p - 2 < len_u {
                        return Result::Err(ParsingError::FormatError);
                    }
                    if !(*slice_index_get(buffer, p + len_u) == 13
                        && *slice_index_get(buffer, p + len_u + 1) == 10) {
                        return Result::Err(ParsingError::FormatError);
                    }
                    let payload = slice_subrange(buffer, p, p + len_u);
                    if !crate::utf8::check_utf8(payload) {
                        return Result::Err(ParsingError::Utf8Error);
                    }
                    let owned = slice_to_vec(payload);
                    Result::Ok((Value::String { value: owned }, p + len_u + 2))
                }
            },
            _ => {
                proof {
                    assert(false);
                }
                Result::Err(ParsingError::FormatError)
            },
        },
    }
}

/// A sequence of trees and its model have the same length.
pub proof fn lemma_seq_model_len(s: Seq<Value>)
    ensures
        seq_model(s).len() == s.len(),
    decreases s,
{
    if s.len() > 0 {
        lemma_seq_model_len(s.drop_last());
    }
}

/// The model of a sequence of trees holds, position by position, the
/// models of its trees.
pub proof fn lemma_seq_model_index(s: Seq<Value>, i: int)
    requires
        0 <= i < s.len(),
    ensures
        seq_model(s)[i] == value_model(s[i]),
    decreases s,
{
    lemma_seq_model_len(s);
    if i < s.len() - 1 {
        lemma_seq_model_len(s.drop_last());
        lemma_seq_model_index(s.drop_last(), i);
    }
}

/// How an executable element-sequence result corresponds to a point
/// of the element-sequence model.
pub open spec fn elems_result_models(
    r: Result<(Vec<Value>, usize), ParsingError>,
    d: Result<(Seq<ValueModel>, int), ParsingError>,
) -> bool {
    match (r, d) {
        (Result::Ok((items, p)), Result::Ok((vs, q))) => seq_model(items@) == vs && p == q,
        (Result::Err(e1), Result::Err(e2)) => e1 == e2,
        _ => false,
    }
}

/// Decodes `m` consecutive values starting at `pos`, collecting them
/// in order; a failing element aborts the whole sequence.
#[verifier::loop_isolation(false)]
pub fn parse_elems(buffer: &[u8], pos: usize, m: i32) -> (r: Result<
    (Vec<Value>, usize),
    ParsingError,
>)
    requires
        m >= 0,
        pos <= buffer@.len(),
    ensures
        elems_result_models(r, dec_elems(buffer@, pos as int, m as int)),
        r is Ok ==> pos <= r->Ok_0.1 <= buffer@.len(),
    decreases buffer@.len() - pos, 1int,
{
    let n: usize = buffer.len();
    let mut items: Vec<Value> = Vec::new();
    let mut cur: usize = pos;
    let mut left: i32 = m;
    proof {
        if dec_elems(buffer@, pos as int, m as int) is Ok {
            let (vs0, pend0) = dec_elems(buffer@, pos as int, m as int)->Ok_0;
            assert(Seq::<ValueModel>::empty() + vs0 =~= vs0);
        }
    }
    while left > 0
        invariant
            0 <= left <= m,
            pos <= cur <= n,
            elems_continue(
                buffer@,
                pos as int,
                m as int,
                seq_model(items@),
                cur as int,
                left as int,
            ),
        decreases left,
    {
        match parse(buffer, cur) {
            Result::Err(e) => {
                return Result::Err(e);
            },
            Result::Ok((v, p2)) => {
                proof {
                    lemma_seq_model_push(items@, v);
                    let done = seq_model(items@);
                    let vm = value_model(v);
                    match dec_elems(buffer@, p2 as int, (left - 1) as int) {
                        Result::Ok((vs2, pend2)) => {
                            assert(done + (seq![vm] + vs2) =~= done.push(vm) + vs2);
                        },
                        Result::Err(_) => {},
                    }
                }
                items.push(v);
                cur = p2;
                left = left - 1;
            },
        }
    }
    proof {
        assert(seq_model(items@) + Seq::<ValueModel>::empty() =~= seq_model(items@));
    }
    Result::Ok((items, cur))
}

/// Decodes an array whose `*` marker the caller has consumed: an
/// element count, then that many values decoded in sequence.
fn parse_array(buffer: &[u8], pos: usize) -> (r: Result<(Value, usize), ParsingError>)
    ensures
        result_models(r, dec_arr(buffer@, pos as int)),
        r is Ok ==> pos < r->Ok_0.1 <= buffer@.len(),
    decreases buffer@.len() - pos, 0int,
{
    match parse_int(buffer, pos) {
        Result::Err(e) => Result::Err(e),
        Result::Ok((lenv, p)) => match lenv {
            Value::Int { value: m } => {
                if m < 0 {
                    return Result::Err(ParsingError::FormatError);
                }
                match parse_elems(buffer, p, m) {
                    Result::Err(e) => Result::Err(e),
                    Result::Ok((items, pend)) => Result::Ok((Value::Array { items }, pend)),
                }
            },
            _ => {
                proof {
                    assert(false);
                }
                Result::Err(ParsingError::FormatError)
            },
        },
    }
}

} // verus!
