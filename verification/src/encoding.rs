use vstd::prelude::*;

use crate::parser::all_digits;
use crate::parser::dec;
use crate::parser::dec_arr;
use crate::parser::dec_elems;
use crate::parser::dec_int;
use crate::parser::digits_val;
use crate::parser::find_crlf;
use crate::parser::int_field_val;
use crate::parser::ParsingError;
use crate::parser::ValueModel;
use crate::utf8::is_valid_utf8;
use crate::utf8::lemma_ascii_is_valid_utf8;

verus! {

/// The canonical decimal digits of a non-negative number, most
/// significant first.
pub open spec fn dec_digits(n: int) -> Seq<u8>
    decreases n,
{
    if n < 10 {
        seq![(0x30 + n) as u8]
    } else {
        dec_digits(n / 10).push((0x30 + n % 10) as u8)
    }
}

/// The bytes of an integer field: an optional minus sign, then the
/// decimal digits of the magnitude.
pub open spec fn enc_int_body(n: int) -> Seq<u8> {
    if n < 0 {
        seq![0x2Du8] + dec_digits(-n)
    } else {
        dec_digits(n)
    }
}

/// The line terminator.
pub open spec fn crlf() -> Seq<u8> {
    seq![0x0Du8, 0x0Au8]
}

/// A complete integer field: its bytes and the terminator.
pub open spec fn enc_field(n: int) -> Seq<u8> {
    enc_int_body(n) + crlf()
}

/// The wire encoding of a value: marker byte, fields, payloads.
pub open spec fn enc(v: ValueModel) -> Seq<u8>
    decreases v,
{
    match v {
        ValueModel::Int(n) => seq![0x3Au8] + enc_field(n),
        ValueModel::Str(b) => seq![0x24u8] + enc_field(b.len() as int) + b + crlf(),
        ValueModel::Null => seq![0x24u8] + enc_field(-1) + crlf(),
        ValueModel::Arr(vs) => seq![0x2Au8] + enc_field(vs.len() as int) + enc_elems(vs),
    }
}

/// The wire encodings of consecutive values.
pub open spec fn enc_elems(vs: Seq<ValueModel>) -> Seq<u8>
    decreases vs,
{
    if vs.len() == 0 {
        Seq::empty()
    } else {
        enc(vs.first()) + enc_elems(vs.drop_first())
    }
}

/// Well-formedness of a value: integers and lengths fit the 32-bit
/// field of the wire format, and string payloads are UTF-8 text.
pub open spec fn wf_value(v: ValueModel) -> bool
    decreases v,
{
    match v {
        ValueModel::Int(n) => i32::MIN <= n <= i32::MAX,
        ValueModel::Str(b) => is_valid_utf8(b) && b.len() <= i32::MAX,
        ValueModel::Null => true,
        ValueModel::Arr(vs) => vs.len() <= i32::MAX && wf_elems(vs),
    }
}

/// Well-formedness of every value in a sequence.
pub open spec fn wf_elems(vs: Seq<ValueModel>) -> bool
    decreases vs,
{
    if vs.len() == 0 {
        true
    } else {
        wf_value(vs.first()) && wf_elems(vs.drop_first())
    }
}

/// The canonical digits are digits, start the field, and denote the
/// number they were made from.
pub proof fn lemma_dec_digits(n: int)
    requires
        n >= 0,
    ensures
        all_digits(dec_digits(n)),
        dec_digits(n).len() >= 1,
        digits_val(dec_digits(n)) == n,
    decreases n,
{
    reveal_with_fuel(digits_val, 2);
    if n < 10 {
        let s = dec_digits(n);
        assert(s.drop_last() =~= Seq::<u8>::empty());
        assert(s.last() == (0x30 + n) as u8);
        assert((0x30 + n) as u8 == 0x30 + n);
        assert(digits_val(Seq::<u8>::empty()) == 0);
    } else {
        lemma_dec_digits(n / 10);
        let s = dec_digits(n);
        assert(s.drop_last() =~= dec_digits(n / 10));
        assert(s.last() == (0x30 + n % 10) as u8);
        assert((0x30 + n % 10) as u8 == 0x30 + n % 10);
        assert(digits_val(s) == digits_val(dec_digits(n / 10)) * 10 + (s.last() - 0x30));
        assert(n / 10 * 10 + n % 10 == n);
    }
}

/// An integer field holds no terminator byte and reads back as the
/// number it was made from.
pub proof fn lemma_enc_int_body(n: int)
    requires
        i32::MIN <= n <= i32::MAX,
    ensures
        enc_int_body(n).len() >= 1,
        forall|i: int|
            0 <= i < enc_int_body(n).len() ==> #[trigger] enc_int_body(n)[i] != 0x0D
                && enc_int_body(n)[i] <= 0x7F,
        int_field_val(enc_int_body(n)) == Option::Some(n),
        is_valid_utf8(enc_int_body(n)),
{
    let body = enc_int_body(n);
    if n < 0 {
        lemma_dec_digits(-n);
        let d = body.subrange(1, body.len() as int);
        assert(d =~= dec_digits(-n));
        assert(body[0] == 0x2D);
        assert(int_field_val(body) == Option::Some(-digits_val(d)));
    } else {
        lemma_dec_digits(n);
        assert(is_ascii_digit_head(body));
        assert(int_field_val(body) == Option::Some(digits_val(body)));
    }
    lemma_ascii_is_valid_utf8(body);
}

/// The first byte of a non-negative field is a digit, so neither a
/// sign nor a terminator; a helper shape for the lemma above.
pub open spec fn is_ascii_digit_head(s: Seq<u8>) -> bool {
    s.len() > 0 && crate::parser::is_ascii_digit(s[0])
}

/// A terminator placed right after terminator-free bytes is the first
/// one the scan finds.
pub proof fn lemma_find_crlf_here(s: Seq<u8>, pos: int, j: int)
    requires
        0 <= pos <= j,
        j + 1 < s.len(),
        s[j] == 0x0D,
        s[j + 1] == 0x0A,
        forall|k: int| pos <= k < j ==> s[k] != 0x0D,
    ensures
        find_crlf(s, pos) == Option::Some(j),
    decreases j - pos,
{
    if pos < j {
        lemma_find_crlf_here(s, pos + 1, j);
    }
}

/// A buffer region holds, byte for byte, the sequence it equals.
pub proof fn lemma_region_bytes(s: Seq<u8>, pos: int, t: Seq<u8>)
    requires
        0 <= pos,
        pos + t.len() <= s.len(),
        s.subrange(pos, pos + t.len()) == t,
    ensures
        forall|i: int| 0 <= i < t.len() ==> s[pos + i] == #[trigger] t[i],
{
    assert forall|i: int| 0 <= i < t.len() implies s[pos + i] == #[trigger] t[i] by {
        assert(s.subrange(pos, pos + t.len())[i] == s[pos + i]);
    }
}

/// An integer field written at `pos`, terminator included, decodes to
/// the number it was made from, ending just past the terminator.
pub proof fn lemma_dec_enc_field(s: Seq<u8>, pos: int, n: int)
    requires
        i32::MIN <= n <= i32::MAX,
        0 <= pos,
        pos + enc_field(n).len() <= s.len(),
        s.subrange(pos, pos + enc_field(n).len()) == enc_field(n),
    ensures
        dec_int(s, pos) == Result::<(int, int), ParsingError>::Ok((n, pos + enc_field(n).len())),
{
    let body = enc_int_body(n);
    let field = enc_field(n);
    let bl = body.len() as int;
    lemma_enc_int_body(n);
    lemma_region_bytes(s, pos, field);
    assert(field[bl] == 0x0D && field[bl + 1] == 0x0A);
    assert forall|k: int| pos <= k < pos + bl implies s[k] != 0x0D by {
        assert(s[k] == field[k - pos]);
        assert(field[k - pos] == body[k - pos]);
    }
    lemma_find_crlf_here(s, pos, pos + bl);
    assert(s.subrange(pos, pos + bl) =~= body) by {
        assert forall|i: int| 0 <= i < bl implies s.subrange(pos, pos + bl)[i] == body[i] by {
            assert(s[pos + i] == field[i]);
        }
    }
}

/// Round trip for one value: a well-formed value encoded anywhere in
/// a buffer decodes back to itself, and the returned position has
/// moved past exactly the bytes of its encoding.
pub proof fn lemma_decode_encode(s: Seq<u8>, pos: int, v: ValueModel)
    requires
        wf_value(v),
        0 <= pos,
        pos + enc(v).len() <= s.len(),
        s.subrange(pos, pos + enc(v).len()) == enc(v),
    ensures
        dec(s, pos) == Result::<(ValueModel, int), ParsingError>::Ok((v, pos + enc(v).len())),
    decreases v,
{
    let e = enc(v);
    lemma_region_bytes(s, pos, e);
    match v {
        ValueModel::Int(n) => {
            let field = enc_field(n);
            assert(e[0] == 0x3Au8);
            assert(s[pos] == e[0]);
            assert(s.subrange(pos + 1, pos + 1 + field.len()) =~= field) by {
                assert forall|i: int| 0 <= i < field.len() implies s.subrange(
                    pos + 1,
                    pos + 1 + field.len(),
                )[i] == field[i] by {
                    assert(s[pos + 1 + i] == e[1 + i]);
                }
            }
            lemma_dec_enc_field(s, pos + 1, n);
        },
        ValueModel::Str(b) => {
            let n = b.len() as int;
            let field = enc_field(n);
            let fl = field.len() as int;
            assert(e[0] == 0x24u8);
            assert(s[pos] == e[0]);
            assert(s.subrange(pos + 1, pos + 1 + fl) =~= field) by {
                assert forall|i: int| 0 <= i < fl implies s.subrange(pos + 1, pos + 1 + fl)[i]
                    == field[i] by {
                    assert(s[pos + 1 + i] == e[1 + i]);
                }
            }
            lemma_dec_enc_field(s, pos + 1, n);
            let p = pos + 1 + fl;
            assert(s[p + n] == 0x0D && s[p + n + 1] == 0x0A) by {
                assert(s[p + n] == e[1 + fl + n]);
                assert(s[p + n + 1] == e[1 + fl + n + 1]);
            }
            assert(s.subrange(p, p + n) =~= b) by {
                assert forall|i: int| 0 <= i < n implies s.subrange(p, p + n)[i] == b[i] by {
                    assert(s[p + i] == e[1 + fl + i]);
                }
            }
        },
        ValueModel::Null => {
            let field = enc_field(-1);
            let fl = field.len() as int;
            assert(e[0] == 0x24u8);
            assert(s[pos] == e[0]);
            assert(s.subrange(pos + 1, pos + 1 + fl) =~= field) by {
                assert forall|i: int| 0 <= i < fl implies s.subrange(pos + 1, pos + 1 + fl)[i]
                    == field[i] by {
                    assert(s[pos + 1 + i] == e[1 + i]);
                }
            }
            lemma_dec_enc_field(s, pos + 1, -1);
            let p = pos + 1 + fl;
            assert(s[p] == 0x0D && s[p + 1] == 0x0A) by {
                assert(s[p] == e[1 + fl]);
                assert(s[p + 1] == e[1 + fl + 1]);
            }
        },
        ValueModel::Arr(vs) => {
            let m = vs.len() as int;
            let field = enc_field(m);
            let fl = field.len() as int;
            assert(e[0] == 0x2Au8);
            assert(s[pos] == e[0]);
            assert(s.subrange(pos + 1, pos + 1 + fl) =~= field) by {
                assert forall|i: int| 0 <= i < fl implies s.subrange(pos + 1, pos + 1 + fl)[i]
                    == field[i] by {
                    assert(s[pos + 1 + i] == e[1 + i]);
                }
            }
            lemma_dec_enc_field(s, pos + 1, m);
            let p = pos + 1 + fl;
            assert(s.subrange(p, p + enc_elems(vs).len()) =~= enc_elems(vs)) by {
                assert forall|i: int| 0 <= i < enc_elems(vs).len() implies s.subrange(
                    p,
                    p + enc_elems(vs).len(),
                )[i] == enc_elems(vs)[i] by {
                    assert(s[p + i] == e[1 + fl + i]);
                }
            }
            lemma_decode_encode_elems(s, p, vs);
            assert(dec_arr(s, pos + 1) == Result::<(ValueModel, int), ParsingError>::Ok(
                (v, pos + enc(v).len()),
            ));
        },
    }
}

/// Round trip for consecutive values: well-formed values encoded one
/// after another decode back, in order, to themselves.
pub proof fn lemma_decode_encode_elems(s: Seq<u8>, pos: int, vs: Seq<ValueModel>)
    requires
        wf_elems(vs),
        0 <= pos,
        pos + enc_elems(vs).len() <= s.len(),
        s.subrange(pos, pos + enc_elems(vs).len()) == enc_elems(vs),
    ensures
        dec_elems(s, pos, vs.len() as int) == Result::<(Seq<ValueModel>, int), ParsingError>::Ok(
            (vs, pos + enc_elems(vs).len()),
        ),
    decreases vs,
{
    if vs.len() == 0 {
        assert(vs =~= Seq::<ValueModel>::empty());
    } else {
        let first = vs.first();
        let rest = vs.drop_first();
        let ee = enc_elems(vs);
        let fe = enc(first);
        let re = enc_elems(rest);
        lemma_region_bytes(s, pos, ee);
        assert(s.subrange(pos, pos + fe.len()) =~= fe) by {
            assert forall|i: int| 0 <= i < fe.len() implies s.subrange(pos, pos + fe.len())[i]
                == fe[i] by {
                assert(s[pos + i] == ee[i]);
            }
        }
        lemma_decode_encode(s, pos, first);
        assert(fe.len() >= 1);
        let p2 = pos + fe.len();
        assert(s.subrange(p2, p2 + re.len()) =~= re) by {
            assert forall|i: int| 0 <= i < re.len() implies s.subrange(p2, p2 + re.len())[i]
                == re[i] by {
                assert(s[p2 + i] == ee[fe.len() + i]);
            }
        }
        lemma_decode_encode_elems(s, p2, rest);
        assert(seq![first] + rest =~= vs);
    }
}

} // verus!
