use vstd::prelude::*;
use vstd::slice::slice_index_get;

verus! {

/// A UTF-8 continuation byte.
pub open spec fn is_cont_byte(b: u8) -> bool {
    0x80 <= b <= 0xBF
}

/// Well-formedness of a byte sequence as UTF-8 text, following the
/// shortest-form encoding of scalar values up to U+10FFFF with the
/// surrogate range excluded.
pub open spec fn is_valid_utf8(s: Seq<u8>) -> bool
    decreases s.len(),
{
    if s.len() == 0 {
        true
    } else {
        let b0 = s[0];
        if b0 <= 0x7F {
            is_valid_utf8(s.subrange(1, s.len() as int))
        } else if 0xC2 <= b0 && b0 <= 0xDF {
            s.len() >= 2 && is_cont_byte(s[1]) && is_valid_utf8(s.subrange(2, s.len() as int))
        } else if b0 == 0xE0 {
            s.len() >= 3 && 0xA0 <= s[1] && s[1] <= 0xBF && is_cont_byte(s[2])
                && is_valid_utf8(s.subrange(3, s.len() as int))
        } else if (0xE1 <= b0 && b0 <= 0xEC) || (0xEE <= b0 && b0 <= 0xEF) {
            s.len() >= 3 && is_cont_byte(s[1]) && is_cont_byte(s[2])
                && is_valid_utf8(s.subrange(3, s.len() as int))
        } else if b0 == 0xED {
            s.len() >= 3 && 0x80 <= s[1] && s[1] <= 0x9F && is_cont_byte(s[2])
                && is_valid_utf8(s.subrange(3, s.len() as int))
        } else if b0 == 0xF0 {
            s.len() >= 4 && 0x90 <= s[1] && s[1] <= 0xBF && is_cont_byte(s[2])
                && is_cont_byte(s[3]) && is_valid_utf8(s.subrange(4, s.len() as int))
        } else if 0xF1 <= b0 && b0 <= 0xF3 {
            s.len() >= 4 && is_cont_byte(s[1]) && is_cont_byte(s[2]) && is_cont_byte(s[3])
                && is_valid_utf8(s.subrange(4, s.len() as int))
        } else if b0 == 0xF4 {
            s.len() >= 4 && 0x80 <= s[1] && s[1] <= 0x8F && is_cont_byte(s[2])
                && is_cont_byte(s[3]) && is_valid_utf8(s.subrange(4, s.len() as int))
        } else {
            false
        }
    }
}

/// A sequence of plain ASCII bytes is valid UTF-8.
pub proof fn lemma_ascii_is_valid_utf8(s: Seq<u8>)
    requires
        forall|i: int| 0 <= i < s.len() ==> s[i] <= 0x7F,
    ensures
        is_valid_utf8(s),
    decreases s.len(),
{
    if s.len() > 0 {
        lemma_ascii_is_valid_utf8(s.subrange(1, s.len() as int));
    }
}

/// Decides `is_valid_utf8` on a byte slice.
pub fn check_utf8(s: &[u8]) -> (r: bool)
    ensures
        r == is_valid_utf8(s@),
{
    let n: usize = s.len();
    let mut i: usize = 0;
    proof {
        assert(s@.subrange(0, n as int) =~= s@);
    }
    while i < n
        invariant
            i <= n,
            n == s@.len(),
            is_valid_utf8(s@) == is_valid_utf8(s@.subrange(i as int, n as int)),
        decreases n - i,
    {
        let ghost t = s@.subrange(i as int, n as int);
        let b0 = *slice_index_get(s, i);
        if b0 <= 0x7F {
            proof {
                assert(t.subrange(1, t.len() as int) =~= s@.subrange(i + 1, n as int));
            }
            i = i + 1;
        } else if 0xC2 <= b0 && b0 <= 0xDF {
            if n - i < 2 {
                return false;
            }
            let b1 = *slice_index_get(s, i + 1);
            if !(0x80 <= b1 && b1 <= 0xBF) {
                return false;
            }
            proof {
                assert(t.subrange(2, t.len() as int) =~= s@.subrange(i + 2, n as int));
            }
            i = i + 2;
        } else if 0xE0 <= b0 && b0 <= 0xEF {
            if n - i < 3 {
                return false;
            }
            let b1 = *slice_index_get(s, i + 1);
            let b2 = *slice_index_get(s, i + 2);
            let lo: u8 = if b0 == 0xE0 { 0xA0 } else { 0x80 };
            let hi: u8 = if b0 == 0xED { 0x9F } else { 0xBF };
            if !(lo <= b1 && b1 <= hi) {
                return false;
            }
            if !(0x80 <= b2 && b2 <= 0xBF) {
                return false;
            }
            proof {
                assert(t.subrange(3, t.len() as int) =~= s@.subrange(i + 3, n as int));
            }
            i = i + 3;
        } else if 0xF0 <= b0 && b0 <= 0xF4 {
            if n - i < 4 {
                return false;
            }
            let b1 = *slice_index_get(s, i + 1);
            let b2 = *slice_index_get(s, i + 2);
            let b3 = *slice_index_get(s, i + 3);
            let lo: u8 = if b0 == 0xF0 { 0x90 } else { 0x80 };
            let hi: u8 = if b0 == 0xF4 { 0x8F } else { 0xBF };
            if !(lo <= b1 && b1 <= hi) {
                return false;
            }
            if !(0x80 <= b2 && b2 <= 0xBF) {
                return false;
            }
            if !(0x80 <= b3 && b3 <= 0xBF) {
                return false;
            }
            proof {
                assert(t.subrange(4, t.len() as int) =~= s@.subrange(i + 4, n as int));
            }
            i = i + 4;
        } else {
            return false;
        }
    }
    proof {
        assert(s@.subrange(n as int, n as int) =~= Seq::<u8>::empty());
    }
    true
}

} // verus!
