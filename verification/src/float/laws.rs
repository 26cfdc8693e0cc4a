//! What holds of rounding and of the conversions, beyond what each function
//! states of itself.

use vstd::arithmetic::div_mod::{lemma_fundamental_div_mod, lemma_fundamental_div_mod_converse};
use vstd::arithmetic::power2::{lemma_pow2_adds, lemma_pow2_pos, pow2};
use vstd::prelude::*;

use crate::float::arith::{product, sum};
use crate::float::convert::{clamped, converted, integer_part, of_integer};
use crate::float::format::{
    assembled, round_half_even, rounded, rounded_magnitude, scaled_mantissa, target_exponent,
    unpacked, Format, Unpacked,
};
use crate::float::power::{
    bit_length, lemma_bit_length_below, lemma_bit_length_bounds, lemma_bit_length_shifted,
    lemma_bit_length_unique, lemma_pow2_values,
};

verus! {

/// How far `value` lies from `multiple * divisor`.
pub open spec fn distance(value: nat, multiple: int, divisor: nat) -> int {
    let difference = value - multiple * divisor;
    if difference < 0 {
        -difference
    } else {
        difference
    }
}

/// Rounding to nearest picks a nearest multiple: no multiple of `divisor`
/// lies nearer to `value` than the rounded one, which is at most half a
/// `divisor` away; and where another lies as near, the rounded one is even.
pub proof fn lemma_round_half_even_is_nearest(value: nat, divisor: nat, other: int)
    requires
        divisor > 0,
    ensures
        2 * distance(value, round_half_even(value, divisor) as int, divisor) <= divisor,
        distance(value, round_half_even(value, divisor) as int, divisor) <= distance(
            value,
            other,
            divisor,
        ),
        other != round_half_even(value, divisor) && distance(value, other, divisor) == distance(
            value,
            round_half_even(value, divisor) as int,
            divisor,
        ) ==> round_half_even(value, divisor) % 2 == 0,
{
    let quotient = (value / divisor) as int;
    let remainder = (value % divisor) as int;
    let nearest = round_half_even(value, divisor) as int;
    lemma_fundamental_div_mod(value as int, divisor as int);
    assert(value == quotient * divisor + remainder) by (nonlinear_arith)
        requires
            value == divisor * quotient + remainder,
    ;
    assert((quotient + 1) * divisor == quotient * divisor + divisor) by (nonlinear_arith);
    if other <= quotient {
        assert(other * divisor <= quotient * divisor) by (nonlinear_arith)
            requires
                other <= quotient,
                divisor > 0,
        ;
        if other < quotient {
            assert(other * divisor <= quotient * divisor - divisor) by (nonlinear_arith)
                requires
                    other <= quotient - 1,
                    divisor > 0,
            ;
        }
    } else {
        assert(other * divisor >= quotient * divisor + divisor) by (nonlinear_arith)
            requires
                other >= quotient + 1,
                divisor > 0,
        ;
        if other > quotient + 1 {
            assert(other * divisor >= quotient * divisor + 2 * divisor) by (nonlinear_arith)
                requires
                    other >= quotient + 2,
                    divisor > 0,
            ;
        }
    }
}

/// Rounding changes no number that the format holds: what a finite pattern
/// stands for rounds to that pattern.
pub proof fn lemma_rounding_keeps_numbers(format: Format, bits: u64)
    requires
        bits < 2 * format.sign_bit(),
        unpacked(format, bits) is Finite,
    ensures
        ({
            let number = unpacked(format, bits);
            rounded(
                format,
                number->Finite_negative,
                number->Finite_mantissa as nat,
                number->Finite_exponent as int,
            ) == bits
        }),
{
    let number = unpacked(format, bits);
    let mantissa = number->Finite_mantissa as nat;
    let exponent = number->Finite_exponent as int;
    let magnitude = bits % format.sign_bit();
    let field = magnitude / format.hidden_bit();
    let precision = format.precision() as nat;
    lemma_pow2_values();
    assert(pow2(precision) == 2 * format.hidden_bit());
    assert(pow2((precision - 1) as nat) == format.hidden_bit());
    lemma_fundamental_div_mod(bits as int, format.sign_bit() as int);
    lemma_fundamental_div_mod(magnitude as int, format.hidden_bit() as int);
    if mantissa == 0 {
    } else if field == 0 {
        lemma_bit_length_below(mantissa, (precision - 1) as nat);
        assert(target_exponent(format, mantissa, exponent) == exponent);
        assert(mantissa * pow2(0) == mantissa) by (nonlinear_arith)
            requires
                pow2(0) == 1,
        ;
        assert(scaled_mantissa(mantissa, exponent, exponent) == mantissa);
        assert(assembled(format, mantissa, exponent) == magnitude);
    } else {
        lemma_bit_length_unique(mantissa, precision);
        assert(target_exponent(format, mantissa, exponent) == exponent);
        assert(mantissa * pow2(0) == mantissa) by (nonlinear_arith)
            requires
                pow2(0) == 1,
        ;
        assert(scaled_mantissa(mantissa, exponent, exponent) == mantissa);
        assert((field - 1) * format.hidden_bit() + mantissa == magnitude);
        assert(assembled(format, mantissa, exponent) == magnitude);
    }
}

/// The pattern of the number one.
pub open spec fn one(format: Format) -> u64 {
    match format {
        Format::Single => 0x3f80_0000,
        Format::Double => 0x3ff0_0000_0000_0000,
    }
}

/// A pattern splits into its sign and its magnitude.
proof fn lemma_sign_and_magnitude(format: Format, negative: bool, magnitude: nat)
    requires
        magnitude < format.sign_bit(),
    ensures
        ({
            let bits = magnitude + if negative {
                format.sign_bit() as nat
            } else {
                0
            };
            &&& bits < 2 * format.sign_bit()
            &&& bits % (format.sign_bit() as nat) == magnitude
            &&& (bits / (format.sign_bit() as nat)) % 2 == 1 <==> negative
        }),
{
    let bits = magnitude + if negative {
        format.sign_bit() as nat
    } else {
        0
    };
    let sign: int = if negative {
        1
    } else {
        0
    };
    lemma_fundamental_div_mod_converse(
        bits as int,
        format.sign_bit() as int,
        sign,
        magnitude as int,
    );
}

/// What the patterns of zero and of one stand for.
proof fn lemma_zero_and_one(format: Format)
    ensures
        unpacked(format, 0) == (Unpacked::Finite {
            negative: false,
            mantissa: 0,
            exponent: format.min_exponent(),
        }),
        unpacked(format, format.sign_bit()) == (Unpacked::Finite {
            negative: true,
            mantissa: 0,
            exponent: format.min_exponent(),
        }),
        unpacked(format, one(format)) == (Unpacked::Finite {
            negative: false,
            mantissa: format.hidden_bit(),
            exponent: (1 - format.precision()) as i64,
        }),
{
    lemma_sign_and_magnitude(format, false, 0);
    lemma_sign_and_magnitude(format, true, 0);
    lemma_sign_and_magnitude(format, false, one(format) as nat);
    lemma_fundamental_div_mod_converse(0, format.hidden_bit() as int, 0, 0);
    let field: int = match format {
        Format::Single => 127,
        Format::Double => 1023,
    };
    assert(one(format) == format.hidden_bit() * field + 0) by (nonlinear_arith)
        requires
            (format == Format::Single && field == 127) || (format == Format::Double && field
                == 1023),
            format == Format::Single ==> one(format) == 0x3f80_0000 && format.hidden_bit()
                == 0x80_0000,
            format == Format::Double ==> one(format) == 0x3ff0_0000_0000_0000
                && format.hidden_bit() == 0x10_0000_0000_0000,
    ;
    lemma_fundamental_div_mod_converse(one(format) as int, format.hidden_bit() as int, field, 0);
}

/// Where the digits of a number fit the format, rounding loses nothing:
/// with no more digits than the precision, no digit below the least
/// exponent, and a leading digit below that of infinity, the rounded
/// pattern stands for `mantissa * 2^exponent` itself, written at the
/// exponent `target_exponent`.
pub proof fn lemma_rounding_is_exact_where_digits_fit(
    format: Format,
    negative: bool,
    mantissa: nat,
    exponent: int,
)
    requires
        mantissa > 0,
        bit_length(mantissa) <= format.precision(),
        format.min_exponent() <= exponent,
        exponent + bit_length(mantissa) <= format.min_exponent() + format.precision()
            + format.infinity() / format.hidden_bit() - 2,
    ensures
        ({
            let target = target_exponent(format, mantissa, exponent);
            let bits = rounded(format, negative, mantissa, exponent);
            &&& target <= exponent
            &&& bits < 2 * format.sign_bit()
            &&& unpacked(format, bits as u64) == Unpacked::Finite {
                negative,
                mantissa: (mantissa * pow2((exponent - target) as nat)) as u64,
                exponent: target as i64,
            }
            &&& mantissa * pow2((exponent - target) as nat) < 2 * format.hidden_bit()
        }),
{
    let precision = format.precision() as nat;
    let hidden = format.hidden_bit() as nat;
    let length = bit_length(mantissa);
    let target = target_exponent(format, mantissa, exponent);
    let shift = (exponent - target) as nat;
    let unit = pow2(shift);
    let scaled = mantissa * unit;
    lemma_pow2_values();
    assert(pow2(precision) == 2 * hidden);
    assert(pow2((precision - 1) as nat) == hidden);
    lemma_pow2_pos(shift);
    lemma_bit_length_shifted(mantissa, shift);
    assert(scaled > 0) by (nonlinear_arith)
        requires
            scaled == mantissa * unit,
            mantissa > 0,
            unit > 0,
    ;
    lemma_bit_length_bounds(scaled);
    assert(scaled_mantissa(mantissa, exponent, target) == scaled);
    let steps = target - format.min_exponent();
    let most = format.infinity() / format.hidden_bit() - 2;
    assert(0 <= steps <= most);
    assert(bit_length(scaled) <= precision);
    crate::float::power::lemma_pow2_increases(bit_length(scaled), precision);
    assert(scaled < 2 * hidden);
    if steps > 0 {
        assert(bit_length(scaled) == precision);
        assert(scaled >= hidden);
    }
    let pattern = steps * hidden + scaled;
    assert((most + 2) * hidden <= format.infinity());
    assert(0 <= pattern < format.infinity()) by (nonlinear_arith)
        requires
            pattern == steps * hidden + scaled,
            0 <= steps <= most,
            0 <= scaled < 2 * hidden,
            (most + 2) * hidden <= format.infinity(),
            hidden > 0,
    ;
    assert(rounded_magnitude(format, mantissa, exponent) == pattern);
    let bits = rounded(format, negative, mantissa, exponent) as u64;
    assert(bits == pattern + if negative {
        format.sign_bit() as int
    } else {
        0
    });
    lemma_sign_and_magnitude(format, negative, pattern as nat);
    if scaled >= hidden {
        lemma_fundamental_div_mod_converse(pattern, hidden as int, steps + 1, scaled - hidden);
    } else {
        lemma_fundamental_div_mod_converse(pattern, hidden as int, 0, scaled as int);
    }
}

/// An integer that fits the precision of a format is held exactly:
/// converting it to the format and back gives the integer again, but for
/// the limits of the range.
pub proof fn lemma_integers_within_precision_are_exact(
    format: Format,
    value: int,
    low: int,
    high: int,
)
    requires
        -2 * format.hidden_bit() < value < 2 * format.hidden_bit(),
    ensures
        of_integer(format, value) < 2 * format.sign_bit(),
        unpacked(format, of_integer(format, value) as u64) is Finite,
        value != 0 ==> unpacked(format, of_integer(format, value) as u64)->Finite_mantissa != 0,
        integer_part(format, of_integer(format, value) as u64, low, high) == clamped(
            value,
            low,
            high,
        ),
{
    let negative = value < 0;
    let magnitude = (if negative {
        -value
    } else {
        value
    }) as nat;
    lemma_pow2_values();
    if magnitude == 0 {
        lemma_pow2_pos((-format.min_exponent()) as nat);
        assert(0nat / pow2((-format.min_exponent()) as nat) == 0) by (nonlinear_arith)
            requires
                pow2((-format.min_exponent()) as nat) > 0,
        ;
    } else {
        lemma_bit_length_below(magnitude, format.precision() as nat);
        lemma_rounding_is_exact_where_digits_fit(format, negative, magnitude, 0);
        let target = target_exponent(format, magnitude, 0);
        let unit = pow2((-target) as nat);
        lemma_pow2_pos((-target) as nat);
        assert(magnitude * unit > 0) by (nonlinear_arith)
            requires
                magnitude > 0,
                unit > 0,
        ;
        if target == 0 {
            assert(magnitude * unit * unit == magnitude) by (nonlinear_arith)
                requires
                    unit == 1,
            ;
        } else {
            lemma_fundamental_div_mod_converse(
                (magnitude * unit) as int,
                unit as int,
                magnitude as int,
                0,
            );
        }
    }
}

/// Scaling a number and what it is divided by alike does not change what
/// the quotient rounds to.
proof fn lemma_round_half_even_scaled(value: nat, divisor: nat, unit: nat)
    requires
        divisor > 0,
        unit > 0,
    ensures
        round_half_even(value * unit, divisor * unit) == round_half_even(value, divisor),
{
    let quotient = value / divisor;
    let remainder = value % divisor;
    lemma_fundamental_div_mod(value as int, divisor as int);
    assert(value * unit == quotient * (divisor * unit) + remainder * unit) by (nonlinear_arith)
        requires
            value == divisor * quotient + remainder,
    ;
    assert(remainder * unit < divisor * unit) by (nonlinear_arith)
        requires
            remainder < divisor,
            unit > 0,
    ;
    lemma_fundamental_div_mod_converse(
        (value * unit) as int,
        (divisor * unit) as int,
        quotient as int,
        (remainder * unit) as int,
    );
    assert(divisor * unit - remainder * unit == (divisor - remainder) * unit)
        by (nonlinear_arith);
    let left = remainder;
    let right = (divisor - remainder) as nat;
    assert(left * unit > right * unit <==> left > right) by (nonlinear_arith)
        requires
            unit > 0,
    ;
    assert(left * unit == right * unit <==> left == right) by (nonlinear_arith)
        requires
            unit > 0,
    ;
}

/// Rounding looks at the number, not at how it is written: `mantissa *
/// 2^exponent` rounds to the same pattern when it is written with `shift`
/// more digits at an exponent lower by `shift`.
pub proof fn lemma_rounding_ignores_scaling(
    format: Format,
    negative: bool,
    mantissa: nat,
    exponent: int,
    shift: nat,
)
    ensures
        rounded(format, negative, mantissa * pow2(shift), exponent - shift) == rounded(
            format,
            negative,
            mantissa,
            exponent,
        ),
{
    let unit = pow2(shift);
    let wide = mantissa * unit;
    let low = exponent - shift;
    lemma_pow2_pos(shift);
    if mantissa == 0 {
        assert(wide == 0) by (nonlinear_arith)
            requires
                wide == mantissa * unit,
                mantissa == 0,
        ;
    } else {
        assert(wide > 0) by (nonlinear_arith)
            requires
                wide == mantissa * unit,
                mantissa > 0,
                unit > 0,
        ;
        lemma_bit_length_shifted(mantissa, shift);
        let target = target_exponent(format, mantissa, exponent);
        assert(target_exponent(format, wide, low) == target);
        if target <= low {
            let rest = (low - target) as nat;
            lemma_pow2_adds(shift, rest);
            assert(wide * pow2(rest) == mantissa * pow2(shift + rest)) by (nonlinear_arith)
                requires
                    wide == mantissa * unit,
                    pow2(shift + rest) == unit * pow2(rest),
            ;
        } else if target <= exponent {
            let kept = (exponent - target) as nat;
            let cut = (target - low) as nat;
            lemma_pow2_adds(kept, cut);
            lemma_pow2_pos(cut);
            assert(wide == (mantissa * pow2(kept)) * pow2(cut) + 0) by (nonlinear_arith)
                requires
                    wide == mantissa * unit,
                    unit == pow2(kept) * pow2(cut),
            ;
            lemma_fundamental_div_mod_converse(
                wide as int,
                pow2(cut) as int,
                (mantissa * pow2(kept)) as int,
                0,
            );
        } else {
            let cut = (target - exponent) as nat;
            lemma_pow2_adds(cut, shift);
            lemma_pow2_pos(cut);
            lemma_round_half_even_scaled(mantissa, pow2(cut), unit);
        }
        assert(scaled_mantissa(wide, low, target) == scaled_mantissa(mantissa, exponent, target));
    }
}

/// Binary64 holds every binary32 number: a finite binary32 pattern widens
/// to the binary64 pattern of the same number.
pub proof fn lemma_widening_is_exact(bits: u64)
    requires
        unpacked(Format::Single, bits) is Finite,
        unpacked(Format::Single, bits)->Finite_mantissa != 0,
    ensures
        ({
            let narrow = unpacked(Format::Single, bits);
            let wide = unpacked(
                Format::Double,
                converted(Format::Single, Format::Double, bits) as u64,
            );
            &&& wide is Finite
            &&& wide->Finite_negative == narrow->Finite_negative
            &&& wide->Finite_exponent <= narrow->Finite_exponent
            &&& wide->Finite_mantissa == narrow->Finite_mantissa * pow2(
                (narrow->Finite_exponent - wide->Finite_exponent) as nat,
            )
        }),
{
    let narrow = unpacked(Format::Single, bits);
    let mantissa = narrow->Finite_mantissa as nat;
    lemma_pow2_values();
    lemma_bit_length_below(mantissa, 24);
    lemma_rounding_is_exact_where_digits_fit(
        Format::Double,
        narrow->Finite_negative,
        mantissa,
        narrow->Finite_exponent as int,
    );
}

/// Multiplying by one changes no finite number.
pub proof fn lemma_multiplying_by_one(format: Format, bits: u64)
    requires
        bits < 2 * format.sign_bit(),
        unpacked(format, bits) is Finite,
    ensures
        product(format, bits, one(format)) == bits,
{
    let number = unpacked(format, bits);
    let fraction_bits = (format.precision() - 1) as nat;
    lemma_pow2_values();
    lemma_zero_and_one(format);
    assert(pow2(fraction_bits) == format.hidden_bit());
    lemma_rounding_ignores_scaling(
        format,
        number->Finite_negative,
        number->Finite_mantissa as nat,
        number->Finite_exponent as int,
        fraction_bits,
    );
    lemma_rounding_keeps_numbers(format, bits);
}

/// Adding a zero of either sign changes no finite number other than zero.
pub proof fn lemma_adding_zero(format: Format, bits: u64, zero: u64)
    requires
        bits < 2 * format.sign_bit(),
        unpacked(format, bits) is Finite,
        unpacked(format, bits)->Finite_mantissa != 0,
        zero == 0 || zero == format.sign_bit(),
    ensures
        sum(format, bits, zero) == bits,
{
    let number = unpacked(format, bits);
    let mantissa = number->Finite_mantissa as nat;
    let exponent = number->Finite_exponent as int;
    let shift = (exponent - format.min_exponent()) as nat;
    lemma_pow2_values();
    lemma_pow2_pos(shift);
    lemma_zero_and_one(format);
    assert(0 * pow2(0) == 0) by (nonlinear_arith);
    assert(mantissa * pow2(shift) > 0) by (nonlinear_arith)
        requires
            mantissa > 0,
            pow2(shift) > 0,
    ;
    lemma_rounding_ignores_scaling(format, number->Finite_negative, mantissa, exponent, shift);
    lemma_rounding_keeps_numbers(format, bits);
}

/// Rescaling by one and zero gives an integer back where the format holds
/// it exactly: converted to the format, multiplied by one, with a zero of
/// either sign added, and converted back, an integer within the precision
/// is itself again, but for the limits of the range.
pub proof fn lemma_unit_rescaling_is_exact(
    format: Format,
    value: int,
    zero: u64,
    low: int,
    high: int,
)
    requires
        -2 * format.hidden_bit() < value < 2 * format.hidden_bit(),
        zero == 0 || zero == format.sign_bit(),
    ensures
        integer_part(
            format,
            sum(format, product(format, of_integer(format, value) as u64, one(format)) as u64, zero)
                as u64,
            low,
            high,
        ) == clamped(value, low, high),
{
    let working = of_integer(format, value) as u64;
    lemma_integers_within_precision_are_exact(format, value, low, high);
    lemma_multiplying_by_one(format, working);
    if value != 0 {
        lemma_adding_zero(format, working, zero);
    } else {
        assert(working == 0);
        lemma_zero_and_one(format);
        assert(0 * pow2(0) == 0) by (nonlinear_arith);
        lemma_pow2_pos((-format.min_exponent()) as nat);
        assert(0nat / pow2((-format.min_exponent()) as nat) == 0) by (nonlinear_arith)
            requires
                pow2((-format.min_exponent()) as nat) > 0,
        ;
    }
}

/// One and zero stay one and zero when binary32 is widened to binary64.
pub proof fn lemma_widening_one_and_zero()
    ensures
        converted(Format::Single, Format::Double, one(Format::Single)) == one(Format::Double),
        converted(Format::Single, Format::Double, 0) == 0,
        converted(Format::Single, Format::Double, 0x8000_0000) == 0x8000_0000_0000_0000,
{
    lemma_pow2_values();
    vstd::arithmetic::power2::lemma2_to64();
    lemma_zero_and_one(Format::Single);
    lemma_zero_and_one(Format::Double);
    assert(0x80_0000 * pow2(29) == 0x10_0000_0000_0000) by (nonlinear_arith)
        requires
            pow2(29) == 0x2000_0000,
    ;
    lemma_rounding_ignores_scaling(Format::Double, false, 0x80_0000, -23, 29);
    lemma_rounding_keeps_numbers(Format::Double, one(Format::Double));
}

/// What a rounded mantissa and its exponent are assembled into stands for
/// `mantissa * 2^target`.
proof fn lemma_unpack_assembled(format: Format, negative: bool, mantissa: nat, target: int)
    requires
        mantissa <= 2 * format.hidden_bit(),
        target >= format.min_exponent(),
        target > format.min_exponent() ==> mantissa >= format.hidden_bit(),
        (target - format.min_exponent()) * format.hidden_bit() + mantissa < format.infinity(),
    ensures
        ({
            let bits = assembled(format, mantissa, target) + if negative {
                format.sign_bit() as nat
            } else {
                0
            };
            let number = unpacked(format, bits as u64);
            &&& bits < 2 * format.sign_bit()
            &&& number is Finite
            &&& number->Finite_negative == negative
            &&& number->Finite_exponent >= target
            &&& number->Finite_mantissa * pow2((number->Finite_exponent - target) as nat)
                == mantissa
        }),
{
    let hidden = format.hidden_bit() as nat;
    let steps = target - format.min_exponent();
    let pattern = steps * hidden + mantissa;
    lemma_pow2_values();
    assert(pattern >= 0) by (nonlinear_arith)
        requires
            pattern == steps * hidden + mantissa,
            steps >= 0,
            hidden > 0,
            mantissa >= 0,
    ;
    assert(assembled(format, mantissa, target) == pattern);
    let bits = (pattern + if negative {
        format.sign_bit() as int
    } else {
        0
    }) as u64;
    lemma_sign_and_magnitude(format, negative, pattern as nat);
    if mantissa < hidden {
        lemma_fundamental_div_mod_converse(pattern, hidden as int, 0, mantissa as int);
        assert(mantissa * pow2(0) == mantissa) by (nonlinear_arith)
            requires
                pow2(0) == 1,
        ;
    } else if mantissa < 2 * hidden {
        lemma_fundamental_div_mod_converse(pattern, hidden as int, steps + 1, mantissa - hidden);
        assert(mantissa * pow2(0) == mantissa) by (nonlinear_arith)
            requires
                pow2(0) == 1,
        ;
    } else {
        assert(pattern == (steps + 2) * hidden + 0) by (nonlinear_arith)
            requires
                pattern == steps * hidden + mantissa,
                mantissa == 2 * hidden,
        ;
        lemma_fundamental_div_mod_converse(pattern, hidden as int, steps + 2, 0);
        assert(hidden * pow2(1) == mantissa) by (nonlinear_arith)
            requires
                pow2(1) == 2,
                mantissa == 2 * hidden,
        ;
    }
}

/// Where digits are cut, the rounded mantissa has at most one digit more
/// than the precision allows, and at least the implicit leading one where
/// the number is not brought up to the least exponent.
proof fn lemma_rounded_mantissa_bounds(format: Format, mantissa: nat, exponent: int)
    requires
        mantissa > 0,
        target_exponent(format, mantissa, exponent) > exponent,
    ensures
        ({
            let target = target_exponent(format, mantissa, exponent);
            let unit = pow2((target - exponent) as nat);
            let kept = scaled_mantissa(mantissa, exponent, target);
            &&& kept <= 2 * format.hidden_bit()
            &&& target > format.min_exponent() ==> kept >= format.hidden_bit()
            &&& target > format.min_exponent() ==> format.hidden_bit() * unit <= mantissa
        }),
{
    let precision = format.precision() as nat;
    let hidden = format.hidden_bit() as nat;
    let length = bit_length(mantissa);
    let target = target_exponent(format, mantissa, exponent);
    let shift = (target - exponent) as nat;
    let unit = pow2(shift);
    let quotient = mantissa / unit;
    lemma_pow2_values();
    assert(pow2(precision) == 2 * hidden && pow2((precision - 1) as nat) == hidden);
    lemma_pow2_pos(shift);
    lemma_bit_length_bounds(mantissa);
    lemma_fundamental_div_mod(mantissa as int, unit as int);
    lemma_pow2_adds(precision, shift);
    crate::float::power::lemma_pow2_increases(length, precision + shift);
    assert(quotient < 2 * hidden) by (nonlinear_arith)
        requires
            mantissa == unit * quotient + mantissa % unit,
            0 <= mantissa % unit,
            mantissa < 2 * hidden * unit,
            unit > 0,
    ;
    if target > format.min_exponent() {
        lemma_pow2_adds((precision - 1) as nat, shift);
        assert(hidden * unit <= mantissa);
        assert(quotient >= hidden) by (nonlinear_arith)
            requires
                mantissa == unit * quotient + mantissa % unit,
                mantissa % unit < unit,
                hidden * unit <= mantissa,
                unit > 0,
        ;
    }
}

/// `mantissa * 2^exponent` in units of `2^base`, for a `base` that is not
/// above `exponent`.
pub open spec fn in_units(mantissa: nat, exponent: int, base: int) -> nat {
    mantissa * pow2((exponent - base) as nat)
}

/// How far two numbers lie apart.
pub open spec fn apart(left: nat, right: nat) -> nat {
    if left < right {
        (right - left) as nat
    } else {
        (left - right) as nat
    }
}

/// Rounding gives a nearest number of the format. Where `mantissa *
/// 2^exponent` does not round to infinity, no finite number of the format,
/// `other_mantissa * 2^other_exponent`, lies nearer to it than the number
/// that the rounded pattern stands for. All three are measured in units of
/// `2^base`, below every exponent at hand.
pub proof fn lemma_rounding_is_nearest(
    format: Format,
    mantissa: nat,
    exponent: int,
    other_mantissa: nat,
    other_exponent: int,
    base: int,
)
    requires
        mantissa > 0,
        rounded_magnitude(format, mantissa, exponent) < format.infinity(),
        other_mantissa < 2 * format.hidden_bit(),
        other_exponent >= format.min_exponent(),
        base <= exponent,
        base <= format.min_exponent(),
    ensures
        ({
            let nearest = unpacked(format, rounded_magnitude(format, mantissa, exponent) as u64);
            &&& nearest is Finite
            &&& apart(
                in_units(mantissa, exponent, base),
                in_units(nearest->Finite_mantissa as nat, nearest->Finite_exponent as int, base),
            ) <= apart(
                in_units(mantissa, exponent, base),
                in_units(other_mantissa, other_exponent, base),
            )
        }),
{
    let hidden = format.hidden_bit() as nat;
    let target = target_exponent(format, mantissa, exponent);
    let kept = scaled_mantissa(mantissa, exponent, target);
    let nearest = unpacked(format, rounded_magnitude(format, mantissa, exponent) as u64);
    let exact = in_units(mantissa, exponent, base);
    let other = in_units(other_mantissa, other_exponent, base);
    lemma_pow2_values();
    if target > exponent {
        lemma_rounded_mantissa_bounds(format, mantissa, exponent);
    } else {
        lemma_bit_length_bounds(mantissa);
        lemma_bit_length_shifted(mantissa, (exponent - target) as nat);
        lemma_bit_length_bounds(kept);
        crate::float::power::lemma_pow2_increases(bit_length(kept), format.precision() as nat);
        if target > format.min_exponent() {
            assert(bit_length(kept) == format.precision());
        }
    }
    lemma_unpack_assembled(format, false, kept, target);
    let found_mantissa = nearest->Finite_mantissa as nat;
    let found_exponent = nearest->Finite_exponent as int;
    let found = in_units(found_mantissa, found_exponent, base);
    // The found number is `kept * 2^target`.
    let lift = pow2((target - base) as nat);
    lemma_pow2_adds((found_exponent - target) as nat, (target - base) as nat);
    assert(found == kept * lift) by (nonlinear_arith)
        requires
            found == found_mantissa * pow2((found_exponent - base) as nat),
            pow2((found_exponent - base) as nat) == pow2((found_exponent - target) as nat) * lift,
            found_mantissa * pow2((found_exponent - target) as nat) == kept,
    ;
    if target <= exponent {
        lemma_pow2_adds((exponent - target) as nat, (target - base) as nat);
        assert(exact == kept * lift) by (nonlinear_arith)
            requires
                exact == mantissa * pow2((exponent - base) as nat),
                pow2((exponent - base) as nat) == pow2((exponent - target) as nat) * lift,
                kept == mantissa * pow2((exponent - target) as nat),
        ;
    } else {
        let unit = pow2((target - exponent) as nat);
        let fine = pow2((exponent - base) as nat);
        lemma_pow2_adds((target - exponent) as nat, (exponent - base) as nat);
        lemma_pow2_pos((exponent - base) as nat);
        lemma_pow2_pos((target - exponent) as nat);
        assert(lift == unit * fine);
        if other_exponent >= target {
            let multiple = other_mantissa * pow2((other_exponent - target) as nat);
            lemma_pow2_adds((other_exponent - target) as nat, (target - base) as nat);
            assert(other == multiple * lift) by (nonlinear_arith)
                requires
                    other == other_mantissa * pow2((other_exponent - base) as nat),
                    pow2((other_exponent - base) as nat) == pow2(
                        (other_exponent - target) as nat,
                    ) * lift,
                    multiple == other_mantissa * pow2((other_exponent - target) as nat),
            ;
            lemma_round_half_even_is_nearest(mantissa, unit, multiple as int);
            let near_gap = distance(mantissa, kept as int, unit);
            let far_gap = distance(mantissa, multiple as int, unit);
            assert(apart(exact, found) == near_gap * fine) by (nonlinear_arith)
                requires
                    exact == mantissa * fine,
                    found == kept * lift,
                    lift == unit * fine,
                    near_gap == if mantissa - kept * unit < 0 {
                        -(mantissa - kept * unit)
                    } else {
                        mantissa - kept * unit
                    },
                    fine > 0,
                    apart(exact, found) == if exact < found {
                        found - exact
                    } else {
                        exact - found
                    },
            ;
            assert(apart(exact, other) == far_gap * fine) by (nonlinear_arith)
                requires
                    exact == mantissa * fine,
                    other == multiple * lift,
                    lift == unit * fine,
                    far_gap == if mantissa - multiple * unit < 0 {
                        -(mantissa - multiple * unit)
                    } else {
                        mantissa - multiple * unit
                    },
                    fine > 0,
                    apart(exact, other) == if exact < other {
                        other - exact
                    } else {
                        exact - other
                    },
            ;
            assert(near_gap * fine <= far_gap * fine) by (nonlinear_arith)
                requires
                    near_gap <= far_gap,
                    fine > 0,
            ;
        } else {
            // The other number lies below the least number with the
            // target exponent, which is itself not above the exact one.
            let below = pow2((target - 1 - base) as nat);
            lemma_pow2_adds((target - 1 - base) as nat, 1);
            assert(lift == 2 * below);
            crate::float::power::lemma_pow2_increases(
                (other_exponent - base) as nat,
                (target - 1 - base) as nat,
            );
            lemma_pow2_pos((target - 1 - base) as nat);
            assert(other < hidden * lift) by (nonlinear_arith)
                requires
                    other == other_mantissa * pow2((other_exponent - base) as nat),
                    other_mantissa < 2 * hidden,
                    pow2((other_exponent - base) as nat) <= below,
                    lift == 2 * below,
                    below > 0,
            ;
            lemma_round_half_even_is_nearest(mantissa, unit, hidden as int);
            let near_gap = distance(mantissa, kept as int, unit);
            let edge_gap = distance(mantissa, hidden as int, unit);
            assert(edge_gap == mantissa - hidden * unit);
            assert(apart(exact, found) == near_gap * fine) by (nonlinear_arith)
                requires
                    exact == mantissa * fine,
                    found == kept * lift,
                    lift == unit * fine,
                    near_gap == if mantissa - kept * unit < 0 {
                        -(mantissa - kept * unit)
                    } else {
                        mantissa - kept * unit
                    },
                    fine > 0,
                    apart(exact, found) == if exact < found {
                        found - exact
                    } else {
                        exact - found
                    },
            ;
            assert(near_gap * fine <= exact - hidden * lift) by (nonlinear_arith)
                requires
                    near_gap <= mantissa - hidden * unit,
                    exact == mantissa * fine,
                    lift == unit * fine,
                    fine > 0,
            ;
        }
    }
}

} // verus!
