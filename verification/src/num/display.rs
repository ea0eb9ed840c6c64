//! Writing a decimal number as text.
//!
//! The digits are placed straight into a buffer of fixed length, from its
//! right end leftwards; the dot and the sign are then put in their places.
//! Nothing is allocated until the text is handed out as a `String`.

use crate::num::text::{
    ascii_chars,
    canonical_text,
    digit_byte,
    digit_count,
    digits,
    fixed_digits,
    magnitude,
    pow10,
    DOT,
    MINUS,
    TEXT_CAPACITY,
    ZERO,
    lemma_ascii_is_utf8,
    lemma_canonical_text_bytes,
    lemma_digit_count_unique,
    lemma_div_pow10_step,
    lemma_pow10_monotonic,
    lemma_pow10_positive,
    lemma_pow10_values,
    lemma_text_layout,
};
use crate::num::Decimal;
use vstd::pervasive::unreached;
use vstd::prelude::*;
use vstd::slice::slice_subrange;
use vstd::string::StringSliceAdditionalSpecFns;
use vstd::utf8::{encode_utf8, encode_utf8_decode_utf8, valid_utf8};

verus! {

/// The byte for the ones of `i`.
fn ones_digit(i: u32) -> (byte: u8)
    requires
        i < 100,
    ensures
        byte == digit_byte((i % 10) as nat),
{
    ZERO + (i % 10) as u8
}

/// The byte for the tens of `i`.
fn tens_digit(i: u32) -> (byte: u8)
    requires
        i < 100,
    ensures
        byte == digit_byte((i / 10) as nat),
{
    ZERO + (i / 10) as u8
}

/// The absolute value of `coefficient`.
pub(crate) fn unsigned_abs(coefficient: i32) -> (size: u32)
    ensures
        size == magnitude(coefficient as int),
{
    if coefficient < 0 {
        (-(coefficient as i64)) as u32
    } else {
        coefficient as u32
    }
}

/// The two lowest digits of `size / 10^k` are the digits of `size` of the
/// weights `10^k` and `10^(k + 1)`, and what is left above them is
/// `size / 10^(k + 2)`.
proof fn lemma_two_digits(size: nat, k: nat)
    ensures
        ((size / pow10(k)) % 100) % 10 == (size / pow10(k)) % 10,
        ((size / pow10(k)) % 100) / 10 == (size / pow10(k + 1)) % 10,
        (size / pow10(k)) / 100 == size / pow10(k + 2),
        (size / pow10(k)) / 10 == size / pow10(k + 1),
{
    lemma_div_pow10_step(size, k);
    lemma_div_pow10_step(size, k + 1);
}

/// A number of 32 bits has ten digits at most: dividing it by `10^k` leaves
/// less than a hundred from `k = 8` on, and nothing from `k = 10` on.
proof fn lemma_ten_digits(size: nat, k: nat)
    requires
        size <= 0x8000_0000,
    ensures
        k >= 8 ==> size / pow10(k) < 100,
        k >= 10 ==> size / pow10(k) == 0,
{
    lemma_pow10_values();
    lemma_pow10_positive(k);
    let unit = pow10(k);
    let quotient = size / unit;
    assert(size >= quotient * unit) by (nonlinear_arith)
        requires
            quotient == size / unit,
            unit > 0,
    ;
    if k >= 8 {
        lemma_pow10_monotonic(8, k);
        if quotient >= 100 {
            assert(quotient * unit >= 100 * pow10(8)) by (nonlinear_arith)
                requires
                    quotient >= 100,
                    unit >= pow10(8),
            ;
        }
    }
    if k >= 10 {
        lemma_pow10_monotonic(10, k);
        if quotient >= 1 {
            assert(quotient * unit >= pow10(10)) by (nonlinear_arith)
                requires
                    quotient >= 1,
                    unit >= pow10(10),
            ;
        }
    }
}

/// Writes the digits of the absolute value of `coefficient` at the right end
/// of the buffer and returns how many there are. The bytes to their left stay.
fn insert_digits(buf: &mut [u8; TEXT_CAPACITY], coefficient: i32) -> (count: u8)
    ensures
        count == digit_count(magnitude(coefficient as int)),
        1 <= count <= 10,
        final(buf)@.subrange(TEXT_CAPACITY - count, TEXT_CAPACITY as int) == digits(
            magnitude(coefficient as int),
        ),
        forall|i: int| 0 <= i < TEXT_CAPACITY - count ==> final(buf)@[i] == old(buf)@[i],
{
    let ghost size = magnitude(coefficient as int);
    let mut pos: usize = TEXT_CAPACITY;
    let mut c: u32 = unsigned_abs(coefficient);
    proof {
        assert(pow10(0) == 1);
        assert(size / 1 == size);
    }
    while c >= 100
        invariant
            size <= 0x8000_0000,
            4 <= pos <= TEXT_CAPACITY,
            c == size / pow10((TEXT_CAPACITY - pos) as nat),
            pos < TEXT_CAPACITY ==> c > 0,
            forall|j: int|
                pos <= j < TEXT_CAPACITY ==> #[trigger] buf@[j] == digit_byte(
                    (size / pow10((TEXT_CAPACITY - 1 - j) as nat)) % 10,
                ),
            forall|i: int| 0 <= i < pos ==> #[trigger] buf@[i] == old(buf)@[i],
        decreases c,
    {
        let q: u32 = c / 100;
        let i: u32 = c - q * 100;
        proof {
            lemma_two_digits(size, (TEXT_CAPACITY - pos) as nat);
            lemma_ten_digits(size, (TEXT_CAPACITY - pos) as nat);
            lemma_ten_digits(size, (TEXT_CAPACITY - pos + 1) as nat);
        }
        pos = pos - 1;
        buf[pos] = ones_digit(i);
        pos = pos - 1;
        buf[pos] = tens_digit(i);
        c = q;
    }
    let i: u32 = c;
    proof {
        lemma_two_digits(size, (TEXT_CAPACITY - pos) as nat);
    }
    pos = pos - 1;
    buf[pos] = ones_digit(i);
    if i >= 10 {
        pos = pos - 1;
        buf[pos] = tens_digit(i);
    }
    let count: u8 = (TEXT_CAPACITY - pos) as u8;
    proof {
        lemma_digit_count_unique(size, count as nat);
        lemma_ten_digits(size, (count - 1) as nat);
        assert(buf@.subrange(TEXT_CAPACITY - count, TEXT_CAPACITY as int) =~= digits(size));
    }
    count
}

/// Shifts the bytes up to `pos` (included) to the left, `times` times, and
/// puts `fill` where a byte has left. The bytes right of `pos` stay.
fn shift_left(buf: &mut [u8; TEXT_CAPACITY], times: u8, pos: usize, fill: u8)
    requires
        pos < TEXT_CAPACITY,
    ensures
        forall|i: int|
            0 <= i < TEXT_CAPACITY ==> final(buf)@[i] == (if i > pos {
                old(buf)@[i]
            } else if i + times <= pos {
                old(buf)@[i + times]
            } else {
                fill
            }),
{
    let mut round: u8 = 0;
    while round < times
        invariant
            pos < TEXT_CAPACITY,
            round <= times,
            forall|i: int|
                0 <= i < TEXT_CAPACITY ==> #[trigger] buf@[i] == (if i > pos {
                    old(buf)@[i]
                } else if i + round <= pos {
                    old(buf)@[i + round]
                } else {
                    fill
                }),
        decreases times - round,
    {
        let ghost before = buf@;
        let mut i: usize = 0;
        while i < pos
            invariant
                pos < TEXT_CAPACITY,
                i <= pos,
                before.len() == TEXT_CAPACITY,
                forall|j: int| 0 <= j < i ==> #[trigger] buf@[j] == before[j + 1],
                forall|j: int| i <= j < TEXT_CAPACITY ==> #[trigger] buf@[j] == before[j],
            decreases pos - i,
        {
            buf[i] = buf[i + 1];
            i = i + 1;
        }
        buf[pos] = fill;
        round = round + 1;
    }
}

/// Puts the dot before the last `scaling` bytes of the buffer and returns
/// where the text begins: one byte before the dot at least, so that a number
/// without a whole part gets its `0`. With no scaling the text is the digits.
fn apply_scaling(buf: &mut [u8; TEXT_CAPACITY], scaling: u8, digits_count: u8) -> (first: usize)
    requires
        1 <= digits_count <= 10,
        scaling + 2 <= TEXT_CAPACITY,
        forall|i: int| 0 <= i < TEXT_CAPACITY - digits_count ==> old(buf)@[i] == ZERO,
    ensures
        first == (if scaling == 0 {
            TEXT_CAPACITY - digits_count
        } else if scaling < digits_count {
            TEXT_CAPACITY - 1 - digits_count
        } else {
            TEXT_CAPACITY - 2 - scaling
        }),
        scaling == 0 ==> final(buf)@ == old(buf)@,
        scaling > 0 ==> final(buf)@.subrange(first as int, TEXT_CAPACITY as int) == old(
            buf,
        )@.subrange(first + 1, TEXT_CAPACITY - scaling) + seq![DOT] + old(buf)@.subrange(
            TEXT_CAPACITY - scaling,
            TEXT_CAPACITY as int,
        ),
{
    if scaling == 0 {
        TEXT_CAPACITY - (digits_count as usize)
    } else {
        let last_index: usize = TEXT_CAPACITY - 1;
        let pos: usize = last_index - (scaling as usize);
        let first: usize;
        if scaling < digits_count {
            shift_left(buf, 1, pos, ZERO);
            buf[pos] = DOT;
            first = last_index - (digits_count as usize);
        } else if scaling == digits_count {
            buf[pos - 1] = ZERO;
            buf[pos] = DOT;
            first = pos - 1;
        } else {
            buf[pos] = DOT;
            first = pos - 1;
        }
        assert(buf@.subrange(first as int, TEXT_CAPACITY as int) =~= old(buf)@.subrange(
            first + 1,
            TEXT_CAPACITY - scaling,
        ) + seq![DOT] + old(buf)@.subrange(TEXT_CAPACITY - scaling, TEXT_CAPACITY as int));
        first
    }
}

/// Puts a `-` before the text that begins at `i` where `coefficient` is
/// negative, and returns where the text begins then.
fn apply_sign(buf: &mut [u8; TEXT_CAPACITY], coefficient: i32, i: usize) -> (first: usize)
    requires
        1 <= i <= TEXT_CAPACITY,
    ensures
        coefficient < 0 ==> first == i - 1 && final(buf)@ == old(buf)@.update(i - 1, MINUS),
        coefficient >= 0 ==> first == i && final(buf)@ == old(buf)@,
{
    if coefficient < 0 {
        buf[i - 1] = MINUS;
        i - 1
    } else {
        i
    }
}

/// `std::str::from_utf8`: the bytes as a string slice. std hands out a string
/// slice exactly where the bytes are valid UTF-8, and it is then a view of
/// those same bytes.
#[verifier::external_body]
fn str_from_utf8(bytes: &[u8]) -> (text: Option<&str>)
    ensures
        text is Some <==> valid_utf8(bytes@),
        text matches Some(slice) ==> slice.spec_bytes() == bytes@,
{
    std::str::from_utf8(bytes).ok()
}

/// The text that ASCII bytes write.
pub(crate) fn ascii_to_string(bytes: &[u8]) -> (text: String)
    requires
        forall|i: int| 0 <= i < bytes@.len() ==> bytes@[i] < 128,
    ensures
        text@ == ascii_chars(bytes@),
        encode_utf8(text@) == bytes@,
{
    proof {
        lemma_ascii_is_utf8(bytes@);
    }
    match str_from_utf8(bytes) {
        Some(slice) => {
            proof {
                encode_utf8_decode_utf8(slice@);
            }
            slice.to_owned()
        },
        None => unreached(),
    }
}

impl Decimal {
    /// Writes the canonical text of this number at the right end of `buffer`
    /// and returns the index of its first byte. Nothing is allocated.
    pub fn format_into(&self, buffer: &mut [u8; TEXT_CAPACITY]) -> (first: usize)
        ensures
            first < TEXT_CAPACITY,
            final(buffer)@.subrange(first as int, TEXT_CAPACITY as int) == canonical_text(
                self@,
            ),
    {
        proof {
            use_type_invariant(self);
        }
        *buffer = [ZERO;TEXT_CAPACITY];
        let count = insert_digits(buffer, self.coefficient);
        let ghost digits_only = buffer@;
        let start = apply_scaling(buffer, self.scaling, count);
        let ghost unsigned = buffer@;
        let first = apply_sign(buffer, self.coefficient, start);
        proof {
            let size = magnitude(self.coefficient as int);
            let places = self.scaling as nat;
            let whole = digits(size / pow10(places));
            let body = unsigned.subrange(start as int, TEXT_CAPACITY as int);
            lemma_text_layout(size, places, digits_only);
            if places == 0 {
                assert(pow10(0) == 1);
                assert(body == whole);
            } else {
                assert(body == whole + seq![DOT] + fixed_digits(size % pow10(places), places));
                assert(whole + seq![DOT] + fixed_digits(size % pow10(places), places) =~= whole
                    + (seq![DOT] + fixed_digits(size % pow10(places), places)));
            }
            if self.coefficient < 0 {
                assert(buffer@.subrange(first as int, TEXT_CAPACITY as int) =~= seq![MINUS]
                    + body);
            } else {
                assert(buffer@.subrange(first as int, TEXT_CAPACITY as int) =~= Seq::<u8>::empty()
                    + body);
            }
            assert(buffer@.subrange(first as int, TEXT_CAPACITY as int) =~= canonical_text(
                self@,
            ));
        }
        first
    }

    /// The canonical text of this number.
    pub fn to_string(&self) -> (text: String)
        ensures
            text@ == ascii_chars(canonical_text(self@)),
            encode_utf8(text@) == canonical_text(self@),
    {
        let mut buffer = [ZERO;TEXT_CAPACITY];
        let first = self.format_into(&mut buffer);
        proof {
            lemma_canonical_text_bytes(self@);
        }
        ascii_to_string(slice_subrange(buffer.as_slice(), first, TEXT_CAPACITY))
    }
}

} // verus!
