//! The written form of a decimal number, as sequences of ASCII bytes.
//!
//! The canonical text of a number is an optional `-`, the digits of the whole
//! part (a single `0` where there is none), and, for a positive scaling
//! factor, a `.` followed by exactly as many digits as the scaling factor says.

use crate::num::{DecimalView, ErrorView, MAX_COEFFICIENT, MAX_SCALING, MIN_COEFFICIENT};
use vstd::arithmetic::div_mod::{
    lemma_basic_div,
    lemma_div_denominator,
    lemma_fundamental_div_mod,
    lemma_hoist_over_denominator,
    lemma_mod_multiples_vanish,
};
use vstd::prelude::*;
use vstd::utf8::{
    decode_utf8,
    encode_utf8,
    encode_utf8_decode_utf8,
    encode_utf8_valid_utf8,
    is_ascii_chars,
    is_ascii_chars_encode_utf8,
    valid_utf8,
};

verus! {

/// The byte `+`.
pub const PLUS: u8 = 43;

/// The byte `-`.
pub const MINUS: u8 = 45;

/// The byte `.`.
pub const DOT: u8 = 46;

/// The byte `0`.
pub const ZERO: u8 = 48;

/// The byte `9`.
pub const NINE: u8 = 57;

/// The longest canonical text: a sign, a leading zero, a dot and ten digits.
pub const TEXT_CAPACITY: usize = 13;

/// Ten to the power `n`.
pub open spec fn pow10(n: nat) -> nat
    decreases n,
{
    if n == 0 {
        1
    } else {
        10 * pow10((n - 1) as nat)
    }
}

/// The absolute value of `n`.
pub open spec fn magnitude(n: int) -> nat {
    if n < 0 {
        (-n) as nat
    } else {
        n as nat
    }
}

/// The byte that writes the digit `d`.
pub open spec fn digit_byte(d: nat) -> u8
    recommends
        d < 10,
{
    (ZERO + d) as u8
}

/// The number of digits that `n` takes in base ten, without leading zeros.
pub open spec fn digit_count(n: nat) -> nat
    decreases n,
{
    if n < 10 {
        1
    } else {
        1 + digit_count(n / 10)
    }
}

/// The last `width` digits of `n` in base ten, most significant first, with
/// leading zeros where `n` is short.
pub open spec fn fixed_digits(n: nat, width: nat) -> Seq<u8> {
    Seq::new(width, |j: int| digit_byte((n / pow10((width - 1 - j) as nat)) % 10))
}

/// `n` in base ten, without leading zeros; zero is a single `0`.
pub open spec fn digits(n: nat) -> Seq<u8> {
    fixed_digits(n, digit_count(n))
}

/// The canonical text of a decimal number.
pub open spec fn canonical_text(number: DecimalView) -> Seq<u8> {
    let size = magnitude(number.coefficient);
    let unit = pow10(number.scaling);
    let sign = if number.coefficient < 0 {
        seq![MINUS]
    } else {
        Seq::empty()
    };
    let fraction = if number.scaling == 0 {
        Seq::empty()
    } else {
        seq![DOT] + fixed_digits(size % unit, number.scaling)
    };
    sign + digits(size / unit) + fraction
}

/// The characters that the ASCII bytes `bytes` stand for.
pub open spec fn ascii_chars(bytes: Seq<u8>) -> Seq<char> {
    Seq::new(bytes.len(), |i: int| bytes[i] as char)
}

/// The byte is one of the ten digits.
pub open spec fn is_digit(byte: u8) -> bool {
    ZERO <= byte <= NINE
}

/// The number that the digits among `text` write, the other bytes passed over.
pub open spec fn digits_value(text: Seq<u8>) -> nat
    decreases text.len(),
{
    if text.len() == 0 {
        0
    } else if is_digit(text.last()) {
        digits_value(text.drop_last()) * 10 + (text.last() - ZERO) as nat
    } else {
        digits_value(text.drop_last())
    }
}

/// The number of digits in `text` that stand after a dot.
pub open spec fn fraction_len(text: Seq<u8>) -> nat
    decreases text.len(),
{
    if text.len() == 0 {
        0
    } else if is_digit(text.last()) && text.drop_last().contains(DOT) {
        fraction_len(text.drop_last()) + 1
    } else {
        fraction_len(text.drop_last())
    }
}

/// The text begins with a `-`.
pub open spec fn is_negative(text: Seq<u8>) -> bool {
    text.len() > 0 && text[0] == MINUS
}

/// The number that the digits among `text` write, with the sign that `text`
/// begins with.
pub open spec fn signed_value(text: Seq<u8>) -> int {
    if is_negative(text) {
        -(digits_value(text) as int)
    } else {
        digits_value(text) as int
    }
}

/// What is wrong with the byte at `i`, given the bytes before it; `None`
/// where the byte is in order. A `+` or `-` may stand at the very beginning
/// only, a `.` once only, and the digits up to and including a digit must
/// write a coefficient in range. No other byte is taken.
pub open spec fn fault_at(text: Seq<u8>, i: int) -> Option<ErrorView>
    recommends
        0 <= i < text.len(),
{
    let byte = text[i];
    if byte == PLUS {
        if i > 0 {
            Some(ErrorView::BadFormat("Misplaced + (plus)"@))
        } else {
            None
        }
    } else if byte == MINUS {
        if i > 0 {
            Some(ErrorView::BadFormat("Misplaced - (minus)"@))
        } else {
            None
        }
    } else if byte == DOT {
        if text.take(i).contains(DOT) {
            Some(ErrorView::BadFormat("Double . (dot)"@))
        } else {
            None
        }
    } else if is_digit(byte) {
        if MIN_COEFFICIENT <= signed_value(text.take(i + 1)) <= MAX_COEFFICIENT {
            None
        } else {
            Some(ErrorView::CoefficientOverflow)
        }
    } else {
        Some(ErrorView::BadFormat("Invalid character"@))
    }
}

/// No byte before `end` is at fault.
pub open spec fn clean_before(text: Seq<u8>, end: int) -> bool {
    forall|i: int| 0 <= i < end ==> (#[trigger] fault_at(text, i)) is None
}

/// The byte at `i` is the first one at fault.
pub open spec fn first_fault(text: Seq<u8>, i: int) -> bool {
    &&& 0 <= i < text.len()
    &&& clean_before(text, i)
    &&& fault_at(text, i) is Some
}

/// What reading `text` as a decimal number gives. The empty text is refused.
/// Otherwise the first byte at fault decides the error. A text without fault
/// is the number of its digits, with its sign, scaled by the count of digits
/// after the dot, unless there are more of those than [`MAX_SCALING`].
pub open spec fn parsed(text: Seq<u8>) -> Result<DecimalView, ErrorView> {
    if text.len() == 0 {
        Err(ErrorView::BadFormat("Empty string"@))
    } else if exists|i: int| first_fault(text, i) {
        Err(fault_at(text, choose|i: int| first_fault(text, i))->0)
    } else if fraction_len(text) > MAX_SCALING {
        Err(ErrorView::ScalingOverflow)
    } else {
        Ok(DecimalView { coefficient: signed_value(text), scaling: fraction_len(text) })
    }
}

/// Powers of ten are positive.
pub proof fn lemma_pow10_positive(n: nat)
    ensures
        pow10(n) > 0,
    decreases n,
{
    if n > 0 {
        lemma_pow10_positive((n - 1) as nat);
    }
}

/// The powers of ten up to the tenth.
pub proof fn lemma_pow10_values()
    ensures
        pow10(0) == 1,
        pow10(1) == 10,
        pow10(2) == 100,
        pow10(3) == 1_000,
        pow10(4) == 10_000,
        pow10(5) == 100_000,
        pow10(6) == 1_000_000,
        pow10(7) == 10_000_000,
        pow10(8) == 100_000_000,
        pow10(9) == 1_000_000_000,
        pow10(10) == 10_000_000_000,
{
    reveal_with_fuel(pow10, 11);
}

/// Powers of ten grow with the exponent.
pub proof fn lemma_pow10_monotonic(a: nat, b: nat)
    requires
        a <= b,
    ensures
        pow10(a) <= pow10(b),
    decreases b,
{
    if a < b {
        lemma_pow10_monotonic(a, (b - 1) as nat);
    }
}

/// Dividing by a power of ten one step higher divides by ten once more.
pub proof fn lemma_div_pow10_step(n: nat, k: nat)
    ensures
        n / pow10(k + 1) == (n / pow10(k)) / 10,
        n / pow10(k + 1) == (n / 10) / pow10(k),
{
    lemma_pow10_positive(k);
    lemma_div_denominator(n as int, pow10(k) as int, 10);
    lemma_div_denominator(n as int, 10, pow10(k) as int);
    assert(pow10(k + 1) == 10 * pow10(k));
    assert(pow10(k) * 10 == 10 * pow10(k)) by (nonlinear_arith);
}

/// Once a power of ten exceeds `n`, every higher power does.
pub proof fn lemma_div_pow10_vanishes(n: nat, a: nat, b: nat)
    requires
        a <= b,
        n / pow10(a) == 0,
    ensures
        n / pow10(b) == 0,
    decreases b - a,
{
    if a < b {
        lemma_div_pow10_step(n, a);
        lemma_div_pow10_vanishes(n, a + 1, b);
    }
}

/// `n` has exactly `digit_count(n)` digits: the power of ten of that exponent
/// exceeds it, and the one below does not, unless `n` is a single digit.
pub proof fn lemma_digit_count(n: nat)
    ensures
        digit_count(n) >= 1,
        n / pow10(digit_count(n)) == 0,
        digit_count(n) == 1 || n / pow10((digit_count(n) - 1) as nat) > 0,
    decreases n,
{
    reveal_with_fuel(pow10, 2);
    if n >= 10 {
        let rest = n / 10;
        lemma_digit_count(rest);
        let count = digit_count(rest);
        lemma_div_pow10_step(n, count);
        if count > 1 {
            lemma_div_pow10_step(n, (count - 1) as nat);
        }
    }
}

/// A number whose `count`-th power of ten exceeds it, and whose power below
/// does not, has `count` digits.
pub proof fn lemma_digit_count_unique(n: nat, count: nat)
    requires
        count >= 1,
        n / pow10(count) == 0,
        count == 1 || n / pow10((count - 1) as nat) > 0,
    ensures
        digit_count(n) == count,
    decreases count,
{
    reveal_with_fuel(pow10, 2);
    if count == 1 {
    } else {
        lemma_pow10_positive((count - 1) as nat);
        lemma_pow10_monotonic(1, (count - 1) as nat);
        if n < pow10((count - 1) as nat) {
            lemma_basic_div(n as int, pow10((count - 1) as nat) as int);
        }
        assert(n >= 10);
        lemma_div_pow10_step(n, (count - 1) as nat);
        if count > 2 {
            lemma_div_pow10_step(n, (count - 2) as nat);
        }
        lemma_digit_count_unique(n / 10, (count - 1) as nat);
    }
}

/// Dividing by two powers of ten in turn divides by the power of the sum.
pub proof fn lemma_div_pow10_add(n: nat, a: nat, b: nat)
    ensures
        (n / pow10(a)) / pow10(b) == n / pow10(a + b),
    decreases b,
{
    if b == 0 {
        assert(pow10(0) == 1);
    } else {
        let lower = (b - 1) as nat;
        lemma_div_pow10_add(n, a, lower);
        lemma_div_pow10_step(n / pow10(a), lower);
        lemma_div_pow10_step(n, a + lower);
        assert(lower + 1 == b);
        assert(a + lower + 1 == a + b);
    }
}

/// Below the exponent `width`, the remainder of `n` by the power of ten has
/// the digits of `n`.
pub proof fn lemma_remainder_digit(n: nat, width: nat, k: nat)
    requires
        k < width,
    ensures
        ((n % pow10(width)) / pow10(k)) % 10 == (n / pow10(k)) % 10,
{
    let unit = pow10(k);
    let above = pow10((width - k - 1) as nat);
    let quotient = n / pow10(width);
    let rest = n % pow10(width);
    lemma_pow10_positive(k);
    lemma_pow10_positive(width);
    lemma_pow10_split(k, (width - k) as nat);
    assert(pow10((width - k) as nat) == 10 * above);
    lemma_fundamental_div_mod(n as int, pow10(width) as int);
    assert(n == rest + (quotient * above * 10) * unit) by (nonlinear_arith)
        requires
            n == pow10(width) * quotient + rest,
            pow10(width) == unit * (10 * above),
    ;
    lemma_hoist_over_denominator(rest as int, (quotient * above * 10) as int, unit);
    assert(n / unit == rest / unit + quotient * above * 10);
    lemma_mod_multiples_vanish((quotient * above) as int, (rest / unit) as int, 10);
    assert(quotient * above * 10 == 10 * (quotient * above)) by (nonlinear_arith);
}

/// The power of ten of a sum is the product of the powers.
pub proof fn lemma_pow10_split(a: nat, b: nat)
    ensures
        pow10(a + b) == pow10(a) * pow10(b),
    decreases b,
{
    if b == 0 {
        assert(pow10(a) * 1 == pow10(a));
    } else {
        lemma_pow10_split(a, (b - 1) as nat);
        assert(pow10(a) * (10 * pow10((b - 1) as nat)) == 10 * (pow10(a) * pow10((b - 1) as nat)))
            by (nonlinear_arith);
    }
}

/// ASCII bytes are valid UTF-8, and are the encoding of their characters.
pub proof fn lemma_ascii_is_utf8(bytes: Seq<u8>)
    requires
        forall|i: int| 0 <= i < bytes.len() ==> bytes[i] < 128,
    ensures
        valid_utf8(bytes),
        encode_utf8(ascii_chars(bytes)) == bytes,
        decode_utf8(bytes) == ascii_chars(bytes),
{
    let chars = ascii_chars(bytes);
    assert(is_ascii_chars(chars));
    is_ascii_chars_encode_utf8(chars);
    assert(encode_utf8(chars) =~= bytes);
    encode_utf8_valid_utf8(chars);
    encode_utf8_decode_utf8(chars);
}

/// A canonical text holds a `-`, a `.` and digits only.
pub proof fn lemma_canonical_text_bytes(number: DecimalView)
    ensures
        forall|i: int|
            0 <= i < canonical_text(number).len() ==> {
                let byte = #[trigger] canonical_text(number)[i];
                byte == MINUS || byte == DOT || ZERO <= byte <= NINE
            },
{
    let text = canonical_text(number);
    let size = magnitude(number.coefficient);
    let unit = pow10(number.scaling);
    let sign = if number.coefficient < 0 {
        seq![MINUS]
    } else {
        Seq::empty()
    };
    let whole = digits(size / unit);
    let digits_after = fixed_digits(size % unit, number.scaling);
    let fraction = if number.scaling == 0 {
        Seq::empty()
    } else {
        seq![DOT] + digits_after
    };
    lemma_pow10_positive(number.scaling);
    assert(text == sign + whole + fraction);
    assert forall|i: int| 0 <= i < text.len() implies {
        let byte = #[trigger] text[i];
        byte == MINUS || byte == DOT || ZERO <= byte <= NINE
    } by {
        if i < sign.len() {
            assert(text[i] == sign[i]);
        } else if i < sign.len() + whole.len() {
            let j = i - sign.len();
            assert(text[i] == whole[j]);
            let width = digit_count(size / unit);
            assert(whole.len() == width);
            let d = ((size / unit) / pow10((width - 1 - j) as nat)) % 10;
            assert(whole[j] == digit_byte(d));
        } else {
            let j = i - sign.len() - whole.len();
            assert(text[i] == fraction[j]);
            if j > 0 {
                let d = ((size % unit) / pow10((number.scaling - 1 - (j - 1)) as nat)) % 10;
                assert(fraction[j] == digits_after[j - 1]);
                assert(digits_after[j - 1] == digit_byte(d));
            }
        }
    }
}

/// Where the digits of `size` stand at the right end of a buffer of zeros,
/// the whole part and the fraction of the canonical text stand there too: the
/// fraction in the last `scaling` bytes, the whole part before it.
pub proof fn lemma_text_layout(size: nat, scaling: nat, buf: Seq<u8>)
    requires
        buf.len() == TEXT_CAPACITY,
        digit_count(size) <= 10,
        scaling + 2 <= TEXT_CAPACITY,
        buf.subrange(TEXT_CAPACITY - digit_count(size), TEXT_CAPACITY as int) == digits(size),
        forall|i: int| 0 <= i < TEXT_CAPACITY - digit_count(size) ==> buf[i] == ZERO,
    ensures
        buf.subrange(
            if scaling < digit_count(size) {
                TEXT_CAPACITY - digit_count(size)
            } else {
                TEXT_CAPACITY - 1 - scaling
            },
            TEXT_CAPACITY - scaling,
        ) == digits(size / pow10(scaling)),
        buf.subrange(TEXT_CAPACITY - scaling, TEXT_CAPACITY as int) == fixed_digits(
            size % pow10(scaling),
            scaling,
        ),
{
    let count = digit_count(size);
    let whole = size / pow10(scaling);
    let fraction = fixed_digits(size % pow10(scaling), scaling);
    let tail = buf.subrange(TEXT_CAPACITY - scaling, TEXT_CAPACITY as int);
    lemma_digit_count(size);
    assert forall|j: int| 0 <= j < scaling implies tail[j] == fraction[j] by {
        let k = (scaling - 1 - j) as nat;
        lemma_remainder_digit(size, scaling, k);
        if k >= count {
            lemma_div_pow10_vanishes(size, count, k);
        } else {
            assert(buf[TEXT_CAPACITY - scaling + j] == digits(size)[count - 1 - k]);
        }
    }
    assert(tail =~= fraction);
    if scaling < count {
        let width = (count - scaling) as nat;
        let head = buf.subrange(TEXT_CAPACITY - count, TEXT_CAPACITY - scaling);
        lemma_div_pow10_add(size, scaling, width);
        lemma_div_pow10_add(size, scaling, (width - 1) as nat);
        lemma_digit_count_unique(whole, width);
        assert forall|j: int| 0 <= j < width implies head[j] == digits(whole)[j] by {
            lemma_div_pow10_add(size, scaling, (width - 1 - j) as nat);
            assert(buf[TEXT_CAPACITY - count + j] == digits(size)[j]);
        }
        assert(head =~= digits(whole));
    } else {
        lemma_div_pow10_vanishes(size, count, scaling);
        assert(pow10(0) == 1);
        assert(buf.subrange(TEXT_CAPACITY - 1 - scaling, TEXT_CAPACITY - scaling) =~= digits(
            whole,
        ));
    }
}

/// A text whose first fault is at `i` is refused with that fault.
pub proof fn lemma_parsed_fault(text: Seq<u8>, i: int)
    requires
        first_fault(text, i),
    ensures
        parsed(text) == Err::<DecimalView, ErrorView>(fault_at(text, i)->0),
{
    let chosen = choose|k: int| first_fault(text, k);
    if chosen < i {
        assert(fault_at(text, chosen) is None);
    }
    if i < chosen {
        assert(fault_at(text, i) is None);
    }
}

/// A text without fault is read by its digits, its sign and its dot.
pub proof fn lemma_parsed_clean(text: Seq<u8>)
    requires
        text.len() > 0,
        clean_before(text, text.len() as int),
    ensures
        parsed(text) == (if fraction_len(text) > MAX_SCALING {
            Err::<DecimalView, ErrorView>(ErrorView::ScalingOverflow)
        } else {
            Ok(DecimalView { coefficient: signed_value(text), scaling: fraction_len(text) })
        }),
{
    assert forall|i: int| !first_fault(text, i) by {
        if 0 <= i < text.len() {
            assert(fault_at(text, i) is None);
        }
    }
}

/// What one more byte adds to a text.
pub proof fn lemma_take_next(text: Seq<u8>, i: int)
    requires
        0 <= i < text.len(),
    ensures
        text.take(i + 1).drop_last() == text.take(i),
        text.take(i + 1).last() == text[i],
        text.take(i + 1).contains(DOT) == (text.take(i).contains(DOT) || text[i] == DOT),
        is_negative(text.take(i + 1)) == (text[0] == MINUS),
{
    let longer = text.take(i + 1);
    let shorter = text.take(i);
    assert(longer.drop_last() =~= shorter);
    if shorter.contains(DOT) {
        let k = choose|k: int| 0 <= k < shorter.len() && shorter[k] == DOT;
        assert(longer[k] == DOT);
    }
    if text[i] == DOT {
        assert(longer[i] == DOT);
    }
    if longer.contains(DOT) {
        let k = choose|k: int| 0 <= k < longer.len() && longer[k] == DOT;
        if k < i {
            assert(shorter[k] == DOT);
        }
    }
}

} // verus!
