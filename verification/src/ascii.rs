//! ASCII helpers shared by the decoder and the encoder: digits, decimal
//! numerals and case folding, all on raw bytes.

use vstd::prelude::*;
use vstd::slice::slice_to_vec;
use vstd::string::is_ascii;
use vstd::string::is_ascii_spec_bytes;
use vstd::string::StringSliceAdditionalSpecFns;

verus! {

/// Carriage return, the first byte of a line terminator.
pub const CR: u8 = 13;

/// Line feed, the second byte of a line terminator.
pub const LF: u8 = 10;

/// A line terminator.
pub open spec fn crlf() -> Seq<u8> {
    seq![CR, LF]
}

/// Whether `b` is one of the bytes `'0'..='9'`.
pub open spec fn is_digit(b: u8) -> bool {
    48 <= b <= 57
}

/// Whether every byte of `s` is a decimal digit.
pub open spec fn all_digits(s: Seq<u8>) -> bool {
    forall|i: int| 0 <= i < s.len() ==> is_digit(#[trigger] s[i])
}

/// Whether `s` is an unsigned decimal numeral: one or more digits, nothing else.
pub open spec fn is_decimal(s: Seq<u8>) -> bool {
    s.len() > 0 && all_digits(s)
}

/// The number that the digits of `s` denote, most significant digit first.
pub open spec fn decimal_value(s: Seq<u8>) -> nat
    decreases s.len(),
{
    if s.len() == 0 {
        0
    } else {
        10 * decimal_value(s.drop_last()) + (s.last() - 48) as nat
    }
}

/// The shortest decimal numeral of `n`: no leading zero, except for zero itself.
pub open spec fn decimal_digits(n: nat) -> Seq<u8>
    decreases n,
{
    if n < 10 {
        seq![(48 + n) as u8]
    } else {
        decimal_digits(n / 10).push((48 + n % 10) as u8)
    }
}

/// The upper-case form of an ASCII letter; every other byte is left alone.
pub open spec fn upper(b: u8) -> u8 {
    if 97 <= b <= 122 {
        (b - 32) as u8
    } else {
        b
    }
}

/// Whether `a` and `b` are the same text up to the case of ASCII letters.
pub open spec fn same_word(a: Seq<u8>, b: Seq<u8>) -> bool {
    a.len() == b.len() && forall|i: int| 0 <= i < a.len() ==> upper(#[trigger] a[i]) == upper(b[i])
}

/// The bytes of a text of ASCII characters, one byte for each.
pub open spec fn ascii_bytes(text: Seq<char>) -> Seq<u8> {
    Seq::new(text.len(), |i: int| text[i] as u8)
}

/// What reading a byte string as an unsigned decimal numeral gives.
#[derive(Clone, Copy, Debug, PartialEq, Eq)]
pub enum Numeral {
    /// The text is empty or holds a byte that is no digit.
    Invalid,
    /// The text is a numeral whose value does not fit in 64 bits.
    TooLarge,
    /// The text is a numeral with this value.
    Value(u64),
}

/// Rendering a number and reading the numeral back gives the number.
pub proof fn lemma_decimal_round_trip(n: nat)
    ensures
        is_decimal(decimal_digits(n)),
        decimal_value(decimal_digits(n)) == n,
    decreases n,
{
    if n < 10 {
        let s = decimal_digits(n);
        assert(s.drop_last() =~= Seq::<u8>::empty());
        assert(decimal_value(s.drop_last()) == 0);
    } else {
        lemma_decimal_round_trip(n / 10);
        let head = decimal_digits(n / 10);
        let s = head.push((48 + n % 10) as u8);
        assert(s.drop_last() =~= head);
        assert forall|i: int| 0 <= i < s.len() implies is_digit(#[trigger] s[i]) by {
            if i < head.len() {
                assert(s[i] == head[i]);
            }
        }
    }
}

/// Reads `s` as an unsigned decimal numeral of at most 64 bits.
pub fn read_decimal(s: &[u8]) -> (r: Numeral)
    ensures
        r is Invalid <==> !is_decimal(s@),
        r is TooLarge <==> is_decimal(s@) && decimal_value(s@) > u64::MAX,
        r matches Numeral::Value(v) ==> v == decimal_value(s@),
{
    if s.len() == 0 {
        return Numeral::Invalid;
    }
    let mut acc: u64 = 0;
    let mut overflow: bool = false;
    let mut i: usize = 0;
    while i < s.len()
        invariant
            0 <= i <= s.len(),
            all_digits(s@.take(i as int)),
            !overflow ==> acc == decimal_value(s@.take(i as int)),
            overflow ==> decimal_value(s@.take(i as int)) > u64::MAX,
        decreases s.len() - i,
    {
        let b: u8 = s[i];
        if !(48 <= b && b <= 57) {
            assert(!is_digit(s@[i as int]));
            return Numeral::Invalid;
        }
        let ghost before = s@.take(i as int);
        let ghost after = s@.take(i + 1);
        proof {
            assert(after.drop_last() =~= before);
            assert(after.last() == b);
            assert forall|j: int| 0 <= j < after.len() implies is_digit(#[trigger] after[j]) by {
                if j < i {
                    assert(after[j] == before[j]);
                }
            }
        }
        if !overflow {
            let d: u64 = (b - 48) as u64;
            match acc.checked_mul(10) {
                Some(m) => match m.checked_add(d) {
                    Some(v) => {
                        acc = v;
                    },
                    None => {
                        overflow = true;
                    },
                },
                None => {
                    overflow = true;
                },
            }
        }
        i = i + 1;
    }
    assert(s@.take(i as int) =~= s@);
    if overflow {
        Numeral::TooLarge
    } else {
        Numeral::Value(acc)
    }
}

/// Appends the shortest decimal numeral of `n` to `out`.
pub fn push_decimal(out: &mut Vec<u8>, n: usize)
    ensures
        final(out)@ == old(out)@ + decimal_digits(n as nat),
    decreases n,
{
    if n >= 10 {
        push_decimal(out, n / 10);
    }
    let d: u8 = (n % 10) as u8;
    out.push(48 + d);
    assert(final(out)@ =~= old(out)@ + decimal_digits(n as nat));
}

/// Folds one byte to upper case.
pub fn to_upper(b: u8) -> (u: u8)
    ensures
        u == upper(b),
{
    if 97 <= b && b <= 122 {
        b - 32
    } else {
        b
    }
}

/// Compares two byte strings without regard to the case of ASCII letters.
pub fn eq_ignore_case(a: &[u8], b: &[u8]) -> (same: bool)
    ensures
        same == same_word(a@, b@),
{
    if a.len() != b.len() {
        return false;
    }
    let mut i: usize = 0;
    while i < a.len()
        invariant
            0 <= i <= a.len(),
            a.len() == b.len(),
            forall|j: int| 0 <= j < i ==> upper(#[trigger] a@[j]) == upper(b@[j]),
        decreases a.len() - i,
    {
        if to_upper(a[i]) != to_upper(b[i]) {
            return false;
        }
        i = i + 1;
    }
    true
}

/// Appends `bytes` to `out`.
pub fn push_bytes(out: &mut Vec<u8>, bytes: &[u8])
    ensures
        final(out)@ == old(out)@ + bytes@,
{
    out.extend_from_slice(bytes);
    assert(final(out)@ =~= old(out)@ + bytes@);
}

/// The bytes of an ASCII text.
pub(crate) fn text_bytes(text: &str) -> (out: Vec<u8>)
    requires
        is_ascii(text),
    ensures
        out@ == ascii_bytes(text@),
{
    proof {
        is_ascii_spec_bytes(text);
    }
    slice_to_vec(text.as_bytes())
}

} // verus!
