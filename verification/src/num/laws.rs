//! What holds of the operations on decimal numbers taken together: reading
//! gives back what writing wrote, a number has one text, equality is by
//! value, and scaling and negation keep or lose what they say.

use crate::num::text::{
    canonical_text,
    clean_before,
    digit_byte,
    digit_count,
    digits,
    digits_value,
    fault_at,
    first_fault,
    fixed_digits,
    fraction_len,
    is_digit,
    is_negative,
    magnitude,
    parsed,
    pow10,
    signed_value,
    DOT,
    MINUS,
    TEXT_CAPACITY,
    ZERO,
    lemma_digit_count,
    lemma_div_pow10_add,
    lemma_div_pow10_step,
    lemma_div_pow10_vanishes,
    lemma_parsed_clean,
    lemma_pow10_positive,
    lemma_pow10_split,
    lemma_pow10_values,
    lemma_take_next,
};
use crate::num::{DecimalView, ErrorView, RoundingMode, MIN_COEFFICIENT};
use vstd::arithmetic::div_mod::{
    lemma_basic_div,
    lemma_breakdown,
    lemma_fundamental_div_mod,
    lemma_fundamental_div_mod_converse,
    lemma_small_mod,
};
use vstd::prelude::*;

verus! {

/// The last digit of a run of digits can be split off.
proof fn lemma_fixed_digits_push(n: nat, width: nat)
    requires
        width > 0,
    ensures
        fixed_digits(n, width) == fixed_digits(n / 10, (width - 1) as nat).push(
            digit_byte(n % 10),
        ),
{
    let whole = fixed_digits(n, width);
    let split = fixed_digits(n / 10, (width - 1) as nat).push(digit_byte(n % 10));
    assert forall|j: int| 0 <= j < width implies whole[j] == split[j] by {
        if j < width - 1 {
            let k = (width - 2 - j) as nat;
            lemma_div_pow10_step(n, k);
            assert(k + 1 == width - 1 - j);
            assert(split[j] == fixed_digits(n / 10, (width - 1) as nat)[j]);
        } else {
            assert(pow10(0) == 1);
            assert(n / 1 == n);
        }
    }
    assert(whole =~= split);
}

/// What a run of digits after `prefix` adds to its value, to its count of
/// digits after the dot, and to its dots.
proof fn lemma_digits_appended(prefix: Seq<u8>, n: nat, width: nat)
    ensures
        digits_value(prefix + fixed_digits(n, width)) == digits_value(prefix) * pow10(width) + n
            % pow10(width),
        fraction_len(prefix + fixed_digits(n, width)) == fraction_len(prefix) + (if prefix.contains(
            DOT,
        ) {
            width
        } else {
            0
        }),
        (prefix + fixed_digits(n, width)).contains(DOT) == prefix.contains(DOT),
    decreases width,
{
    let text = prefix + fixed_digits(n, width);
    if width == 0 {
        assert(text =~= prefix);
        assert(pow10(0) == 1);
    } else {
        let lower = (width - 1) as nat;
        let shorter = prefix + fixed_digits(n / 10, lower);
        let byte = digit_byte(n % 10);
        lemma_fixed_digits_push(n, width);
        assert(text =~= shorter.push(byte));
        lemma_take_next(text, shorter.len() as int);
        assert(text.take(shorter.len() as int) =~= shorter);
        assert(text.take(text.len() as int) =~= text);
        lemma_digits_appended(prefix, n / 10, lower);
        lemma_pow10_positive(lower);
        lemma_breakdown(n as int, 10, pow10(lower) as int);
        assert(pow10(width) == 10 * pow10(lower));
        assert(is_digit(byte));
        assert((byte - ZERO) as nat == n % 10);
        let before = digits_value(prefix) as int;
        let unit = pow10(lower) as int;
        let carried = ((n / 10) % pow10(lower)) as int;
        let last = (n % 10) as int;
        assert((before * unit + carried) * 10 + last == before * (10 * unit) + (10 * carried
            + last)) by (nonlinear_arith);
        assert(digits_value(shorter) == before * unit + carried);
        assert(digits_value(text) == digits_value(shorter) * 10 + last);
        assert(n % pow10(width) == 10 * carried + last);
    }
}

/// The digits of a text write at least what the digits of its beginning write.
proof fn lemma_value_grows(text: Seq<u8>, k: int)
    requires
        0 <= k <= text.len(),
    ensures
        digits_value(text.take(k)) <= digits_value(text),
    decreases text.len() - k,
{
    if k < text.len() {
        lemma_take_next(text, k);
        lemma_value_grows(text, k + 1);
    } else {
        assert(text.take(k) =~= text);
    }
}

/// Reading the canonical text of a number gives the number back: the same
/// coefficient and the same scaling factor.
pub proof fn lemma_parse_inverts_format(number: DecimalView)
    requires
        number.representable(),
    ensures
        parsed(canonical_text(number)) == Ok::<DecimalView, ErrorView>(number),
{
    let text = canonical_text(number);
    let size = magnitude(number.coefficient);
    let places = number.scaling;
    let unit = pow10(places);
    let whole = size / unit;
    let rest = size % unit;
    let sign = if number.coefficient < 0 {
        seq![MINUS]
    } else {
        Seq::<u8>::empty()
    };
    let width = digit_count(whole);
    let head = sign + digits(whole);
    lemma_pow10_positive(places);
    lemma_digit_count(whole);
    lemma_fundamental_div_mod(size as int, unit as int);

    // The sign holds no digit and no dot.
    assert(digits_value(sign) == 0 && fraction_len(sign) == 0 && !sign.contains(DOT)) by {
        reveal_with_fuel(digits_value, 2);
        reveal_with_fuel(fraction_len, 2);
        if number.coefficient < 0 {
            assert(sign.drop_last() =~= Seq::<u8>::empty());
        }
    }
    // The whole part.
    lemma_digits_appended(sign, whole, width);
    lemma_pow10_positive(width);
    assert(whole % pow10(width) == whole) by {
        if whole >= pow10(width) {
            vstd::arithmetic::div_mod::lemma_div_non_zero(whole as int, pow10(width) as int);
        }
        lemma_small_mod(whole, pow10(width));
    }
    assert(digits_value(head) == whole);
    assert(fraction_len(head) == 0);
    assert(!head.contains(DOT));

    // The dot and the digits after it.
    if places == 0 {
        assert(pow10(0) == 1);
        assert(size / 1 == size);
        assert(text =~= head);
    } else {
        let dotted = head.push(DOT);
        assert(dotted.take(head.len() as int) =~= head);
        assert(dotted.take(dotted.len() as int) =~= dotted);
        lemma_take_next(dotted, head.len() as int);
        lemma_digits_appended(dotted, rest, places);
        assert(text =~= dotted + fixed_digits(rest, places));
        lemma_small_mod(rest, unit);
        assert(digits_value(dotted) == whole);
        assert(digits_value(text) == whole * unit + rest);
        assert(whole * unit + rest == size) by (nonlinear_arith)
            requires
                size == unit * whole + rest,
        ;
    }
    assert(digits_value(text) == size);
    assert(fraction_len(text) == places);
    assert(is_negative(text) == (number.coefficient < 0)) by {
        assert(text[0] == head[0]);
        if number.coefficient >= 0 {
            assert(head[0] == digits(whole)[0]);
        }
    }
    assert(signed_value(text) == number.coefficient);

    // No byte is at fault.
    assert forall|i: int| 0 <= i < text.len() implies (#[trigger] fault_at(text, i)) is None by {
        lemma_value_grows(text, i + 1);
        lemma_take_next(text, i);
        if i < sign.len() {
            assert(text[i] == MINUS);
        } else if i < head.len() {
            assert(text[i] == digits(whole)[i - sign.len()]);
            assert(is_digit(text[i]));
        } else if i == head.len() {
            assert(text[i] == DOT);
            assert(text.take(i) =~= head);
        } else {
            assert(text[i] == fixed_digits(rest, places)[i - head.len() - 1]);
            assert(is_digit(text[i]));
        }
    }
    lemma_parsed_clean(text);
}

/// Reading the canonical text of a number gives a number that is equal to
/// it.
pub proof fn lemma_parse_of_format_is_equal(number: DecimalView)
    requires
        number.representable(),
    ensures
        parsed(canonical_text(number)) is Ok,
        parsed(canonical_text(number))->Ok_0.same_value(number),
{
    lemma_parse_inverts_format(number);
}

/// Two numbers with the same canonical text are the same number: the same
/// coefficient and the same scaling factor.
pub proof fn lemma_text_is_unique(a: DecimalView, b: DecimalView)
    requires
        a.representable(),
        b.representable(),
        canonical_text(a) == canonical_text(b),
    ensures
        a == b,
{
    lemma_parse_inverts_format(a);
    lemma_parse_inverts_format(b);
}

/// The digits after the last digit of a text add nothing to its value: a
/// text is worth what it is worth up to its last digit.
proof fn lemma_value_up_to_last_digit(text: Seq<u8>, upto: int)
    requires
        0 <= upto <= text.len(),
        forall|i: int| upto <= i < text.len() ==> !is_digit(text[i]),
    ensures
        digits_value(text) == digits_value(text.take(upto)),
    decreases text.len() - upto,
{
    if upto < text.len() {
        let shorter = text.drop_last();
        assert(shorter.take(upto) =~= text.take(upto));
        lemma_value_up_to_last_digit(shorter, upto);
    } else {
        assert(text.take(upto) =~= text);
    }
}

/// What reading a text gives is a number that a `Decimal` can hold.
pub proof fn lemma_parsed_is_representable(text: Seq<u8>)
    requires
        parsed(text) is Ok,
    ensures
        parsed(text)->Ok_0.representable(),
{
    assert(clean_before(text, text.len() as int)) by {
        assert forall|i: int| 0 <= i < text.len() implies (#[trigger] fault_at(text, i))
            is None by {
            if fault_at(text, i) is Some {
                lemma_some_fault_is_first(text, i);
            }
        }
    }
    if exists|i: int| 0 <= i < text.len() && is_digit(text[i]) {
        let last = lemma_last_digit(text, text.len() as int);
        assert(fault_at(text, last) is None);
        lemma_value_up_to_last_digit(text, last + 1);
        assert(is_negative(text.take(last + 1)) == is_negative(text));
    } else {
        lemma_value_up_to_last_digit(text, 0);
        assert(text.take(0) =~= Seq::<u8>::empty());
    }
}

/// Where a byte is at fault, some byte is the first one at fault.
proof fn lemma_some_fault_is_first(text: Seq<u8>, i: int)
    requires
        0 <= i < text.len(),
        fault_at(text, i) is Some,
    ensures
        exists|k: int| first_fault(text, k),
    decreases i,
{
    if clean_before(text, i) {
        assert(first_fault(text, i));
    } else {
        let k = choose|k: int| 0 <= k < i && !((#[trigger] fault_at(text, k)) is None);
        lemma_some_fault_is_first(text, k);
    }
}

/// The place of the last digit among the first `upto` bytes of a text that
/// has a digit there.
proof fn lemma_last_digit(text: Seq<u8>, upto: int) -> (last: int)
    requires
        0 <= upto <= text.len(),
        exists|i: int| 0 <= i < upto && is_digit(text[i]),
        forall|i: int| upto <= i < text.len() ==> !is_digit(text[i]),
    ensures
        0 <= last < text.len(),
        is_digit(text[last]),
        forall|i: int| last < i < text.len() ==> !is_digit(text[i]),
    decreases upto,
{
    if is_digit(text[upto - 1]) {
        upto - 1
    } else {
        lemma_last_digit(text, upto - 1)
    }
}

/// The canonical text of a number is not empty and fits the buffer that is
/// kept for it, with room to spare.
pub proof fn lemma_text_fits(number: DecimalView)
    requires
        number.representable(),
    ensures
        0 < canonical_text(number).len() < TEXT_CAPACITY,
{
    let size = magnitude(number.coefficient);
    let places = number.scaling;
    let whole = size / pow10(places);
    let count = digit_count(whole);
    let sign = if number.coefficient < 0 {
        seq![MINUS]
    } else {
        Seq::<u8>::empty()
    };
    let fraction = if places == 0 {
        Seq::<u8>::empty()
    } else {
        seq![DOT] + fixed_digits(size % pow10(places), places)
    };
    lemma_pow10_positive(places);
    lemma_pow10_values();
    lemma_digit_count(whole);
    assert(canonical_text(number) == sign + digits(whole) + fraction);
    assert(canonical_text(number).len() == sign.len() + count + fraction.len());
    if count > 1 {
        let below = (count - 1) as nat;
        lemma_div_pow10_add(size, places, below);
        if places + below >= 10 {
            lemma_basic_div(size as int, pow10(10) as int);
            lemma_div_pow10_vanishes(size, 10, places + below);
        }
    }
}

/// A number is written without leading zeros: its first digit is a zero
/// only where the number is zero, which is written as a single `0`.
pub proof fn lemma_no_leading_zero(n: nat)
    ensures
        digits(n).len() == digit_count(n) >= 1,
        digits(n)[0] == ZERO <==> n == 0,
        n == 0 ==> digits(n) == seq![ZERO],
{
    let count = digit_count(n);
    lemma_digit_count(n);
    if count == 1 {
        assert(pow10(0) == 1);
        assert(n / 1 == n);
        assert(pow10(1) == 10) by {
            lemma_pow10_values();
        }
        if n >= 10 {
            vstd::arithmetic::div_mod::lemma_div_non_zero(n as int, 10);
        }
        if n == 0 {
            assert(digits(n) =~= seq![ZERO]);
        }
    } else {
        let below = (count - 1) as nat;
        lemma_div_pow10_step(n, below);
        let leading = n / pow10(below);
        assert(leading / 10 == 0);
        assert(0 < leading < 10);
        assert(leading % 10 == leading);
        lemma_pow10_positive(below);
        if n == 0 {
            lemma_basic_div(0, pow10(below) as int);
        }
    }
}

/// A number is equal to itself.
pub proof fn lemma_equality_is_reflexive(a: DecimalView)
    ensures
        a.same_value(a),
{
}

/// Where a number is equal to another, the other is equal to it.
pub proof fn lemma_equality_is_symmetric(a: DecimalView, b: DecimalView)
    requires
        a.same_value(b),
    ensures
        b.same_value(a),
{
}

/// Two numbers that are equal to a third are equal to each other.
pub proof fn lemma_equality_is_transitive(a: DecimalView, b: DecimalView, c: DecimalView)
    requires
        a.same_value(b),
        b.same_value(c),
    ensures
        a.same_value(c),
{
    let pa = pow10(a.scaling) as int;
    let pb = pow10(b.scaling) as int;
    let pc = pow10(c.scaling) as int;
    lemma_pow10_positive(b.scaling);
    assert((a.coefficient * pc) * pb == (c.coefficient * pa) * pb) by (nonlinear_arith)
        requires
            a.coefficient * pb == b.coefficient * pa,
            b.coefficient * pc == c.coefficient * pb,
    ;
    assert(a.coefficient * pc == c.coefficient * pa) by (nonlinear_arith)
        requires
            (a.coefficient * pc) * pb == (c.coefficient * pa) * pb,
            pb > 0,
    ;
}

/// Two equal numbers that are aligned, that is of one scaling factor, have
/// one coefficient too: they are the same number.
pub proof fn lemma_aligned_equals_are_same(a: DecimalView, b: DecimalView)
    requires
        a.same_value(b),
        a.scaling == b.scaling,
    ensures
        a == b,
{
    let unit = pow10(a.scaling) as int;
    lemma_pow10_positive(a.scaling);
    assert(a.coefficient == b.coefficient) by (nonlinear_arith)
        requires
            a.coefficient * unit == b.coefficient * unit,
            unit > 0,
    ;
}

/// Upscaling keeps the value: the upscaled number is equal to the number.
pub proof fn lemma_upscaling_keeps_value(number: DecimalView, amount: nat)
    requires
        number.upscaled(amount) is Ok,
    ensures
        number.upscaled(amount)->Ok_0.same_value(number),
{
    lemma_pow10_split(number.scaling, amount);
    assert((number.coefficient * pow10(amount)) * pow10(number.scaling) == number.coefficient * (
    pow10(number.scaling) * pow10(amount))) by (nonlinear_arith);
}

/// Downscaling undoes upscaling: nothing is rounded away where only zeros
/// are dropped.
pub proof fn lemma_downscaling_undoes_upscaling(number: DecimalView, amount: nat)
    requires
        number.upscaled(amount) is Ok,
    ensures
        number.upscaled(amount)->Ok_0.downscaled(amount, RoundingMode::HalfUp) == number,
{
    let unit = pow10(amount) as int;
    let size = magnitude(number.coefficient) as int;
    let scaled = number.upscaled(amount)->Ok_0;
    lemma_pow10_positive(amount);
    assert(magnitude(scaled.coefficient) == size * unit) by (nonlinear_arith)
        requires
            scaled.coefficient == number.coefficient * unit,
            size == magnitude(number.coefficient),
            unit > 0,
    ;
    assert(2 * (size * unit) + unit == size * (2 * unit) + unit) by (nonlinear_arith);
    lemma_fundamental_div_mod_converse(2 * (size * unit) + unit, 2 * unit, size, unit);
    assert((scaled.coefficient < 0) == (number.coefficient < 0)) by (nonlinear_arith)
        requires
            scaled.coefficient == number.coefficient * unit,
            unit > 0,
    ;
}

/// Downscaling rounds to the nearest neighbour: the downscaled number, with
/// its zeros back, is half a unit of its last digit away from the number at
/// most, and on the same side of zero. Of two neighbours that are equally
/// near, it is the one away from zero.
pub proof fn lemma_downscaling_is_nearest(number: DecimalView, amount: nat)
    requires
        amount <= number.scaling,
    ensures
        ({
            let rounded = number.downscaled(amount, RoundingMode::HalfUp);
            let unit = pow10(amount) as int;
            &&& rounded.scaling == number.scaling - amount
            &&& -unit <= 2 * (rounded.coefficient * unit - number.coefficient) <= unit
            &&& number.coefficient >= 0 ==> rounded.coefficient >= 0
            &&& number.coefficient <= 0 ==> rounded.coefficient <= 0
            &&& 2 * (rounded.coefficient * unit - number.coefficient) == unit
                ==> number.coefficient >= 0
            &&& 2 * (rounded.coefficient * unit - number.coefficient) == -unit
                ==> number.coefficient <= 0
        }),
{
    let unit = pow10(amount) as int;
    let size = magnitude(number.coefficient) as int;
    let quotient = (2 * size + unit) / (2 * unit);
    let rest = (2 * size + unit) % (2 * unit);
    lemma_pow10_positive(amount);
    lemma_fundamental_div_mod(2 * size + unit, 2 * unit);
    assert(0 <= rest < 2 * unit) by {
        vstd::arithmetic::div_mod::lemma_mod_pos_bound(2 * size + unit, 2 * unit);
    }
    assert(2 * (quotient * unit - size) == unit - rest) by (nonlinear_arith)
        requires
            2 * size + unit == (2 * unit) * quotient + rest,
    ;
    assert(quotient >= 0) by (nonlinear_arith)
        requires
            2 * size + unit == (2 * unit) * quotient + rest,
            rest < 2 * unit,
            size >= 0,
            unit > 0,
    ;
    let rounded = number.downscaled(amount, RoundingMode::HalfUp);
    assert(rounded.coefficient == (if number.coefficient < 0 {
        -quotient
    } else {
        quotient
    }));
    if number.coefficient < 0 {
        assert((-quotient) * unit == -(quotient * unit)) by (nonlinear_arith);
        assert(2 * (rounded.coefficient * unit - number.coefficient) == rest - unit);
    } else {
        assert(2 * (rounded.coefficient * unit - number.coefficient) == unit - rest);
        if number.coefficient == 0 {
            lemma_basic_div(unit, 2 * unit);
        }
    }
}

/// Negating twice gives the number back.
pub proof fn lemma_negating_twice(number: DecimalView)
    ensures
        number.negated().negated() == number,
{
}

/// The rounding negation of a number that a `Decimal` can hold is one too:
/// its coefficient is in range.
pub proof fn lemma_rounding_negation_is_representable(number: DecimalView, mode: RoundingMode)
    requires
        number.representable(),
        number.coefficient == MIN_COEFFICIENT ==> number.scaling >= 1,
    ensures
        number.rounding_negated(mode).representable(),
{
    lemma_pow10_values();
    if number.coefficient == MIN_COEFFICIENT {
        assert((2 * 2_147_483_648 + 10) / 20 == 214_748_365) by (nonlinear_arith);
    }
}

} // verus!
