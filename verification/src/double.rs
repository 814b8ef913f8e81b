//! Doubles as numbers, and the decimal text that spells them.

use vstd::prelude::*;

use crate::encoding;
use crate::metric::{DoubleView, ReadingView, Scale, ValueView};
use crate::number;
use crate::text;

verus! {

/// The smallest double above zero is two to the power of minus this.
pub const LEAST_POWER: u64 = 1074;

/// A literal of this number and above spells an infinity: half the way from
/// the largest double to the power of two above it.
pub open spec fn overflow() -> int {
    vstd::arithmetic::power2::pow2(1024) - vstd::arithmetic::power2::pow2(970)
}

pub open spec fn is_finite(bits: u64) -> bool {
    encoding::exponent(bits) < encoding::MAX_EXPONENT
}

/// A finite double, counted in smallest doubles.
pub open spec fn in_least_units(bits: u64) -> int {
    let n = encoding::significand(bits) * vstd::arithmetic::power2::pow2(
        (LEAST_POWER - encoding::point(bits)) as nat,
    );
    if encoding::is_negative(bits) {
        -n
    } else {
        n
    }
}

/// Ten to the power of `n`, where that is whole, otherwise 1.
pub open spec fn power_of_ten(n: int) -> int {
    if n > 0 {
        vstd::arithmetic::power::pow(10, n as nat)
    } else {
        1
    }
}

pub open spec fn magnitude(n: int) -> int {
    if n < 0 {
        -n
    } else {
        n
    }
}

/// How far the number that a literal spells is from a finite double. The unit
/// depends on the literal alone.
pub open spec fn distance(literal: Seq<char>, bits: u64) -> int {
    let p = number::literal_power(literal);
    let number = number::literal_digits(literal) * power_of_ten(p)
        * vstd::arithmetic::power2::pow2(LEAST_POWER as nat);
    magnitude(number - in_least_units(bits) * power_of_ten(-p))
}

/// Whether the number that a literal spells is nearer to the finite double
/// `bits` than to `other`, or as near and `other` is the same number or has the
/// odd significand.
pub open spec fn is_nearer(literal: Seq<char>, bits: u64, other: u64) -> bool {
    ||| distance(literal, bits) < distance(literal, other)
    ||| distance(literal, bits) == distance(literal, other) && (in_least_units(bits)
        == in_least_units(other) || (encoding::significand(bits) % 2 == 0
        && encoding::significand(other) % 2 != 0))
}

/// Whether a literal with a decimal number reads as the finite double `bits`:
/// as the one nearest to the number, the even one where two are as near.
pub open spec fn spells(literal: Seq<char>, bits: u64) -> bool {
    let p = number::literal_power(literal);
    &&& number::is_decimal(number::unsigned_part(literal))
    &&& is_finite(bits)
    &&& magnitude(number::literal_digits(literal)) * power_of_ten(p) < overflow() * power_of_ten(-p)
    &&& forall|other: u64| is_finite(other) ==> #[trigger] is_nearer(literal, bits, other)
}

/// Whether `shortest` belongs to `bits`: it is a floating-point literal, the
/// literal of a finite double reads as it, and that of a whole number has no
/// decimal point.
pub open spec fn is_faithful(v: DoubleView) -> bool {
    &&& number::is_float(v.shortest)
    &&& is_finite(v.bits) ==> spells(v.shortest, v.bits)
    &&& is_finite(v.bits) && encoding::whole_magnitude(v.bits) is Some
        ==> !v.shortest.contains('.')
}

/// Whether a value that was read is the double `bits`.
pub open spec fn is_reading_of(value: ValueView, bits: u64) -> bool {
    &&& value.scale == Scale::Unit
    &&& match value.reading {
        ReadingView::Decimal(literal) => spells(literal, bits),
        ReadingView::NotANumber => encoding::is_nan(bits),
        ReadingView::Infinity => encoding::is_infinite(bits) && !encoding::is_negative(bits),
        ReadingView::NegativeInfinity => encoding::is_infinite(bits) && encoding::is_negative(bits),
        _ => false,
    }
}

/// A literal reads as one number.
pub proof fn literals_read_as_one_number(literal: Seq<char>, a: u64, b: u64)
    requires
        spells(literal, a),
        spells(literal, b),
    ensures
        in_least_units(a) == in_least_units(b),
{
    assert(is_nearer(literal, a, b));
    assert(is_nearer(literal, b, a));
}

/// A whole double is its magnitude in units of one.
proof fn lemma_whole(bits: u64)
    requires
        is_finite(bits),
        encoding::whole_magnitude(bits) is Some,
    ensures
        encoding::whole_magnitude(bits)->0 >= 0,
        magnitude(in_least_units(bits)) == encoding::whole_magnitude(bits)->0
            * vstd::arithmetic::power2::pow2(LEAST_POWER as nat),
        encoding::is_negative(bits) ==> in_least_units(bits) <= 0,
        !encoding::is_negative(bits) ==> in_least_units(bits) >= 0,
{
    let m = encoding::significand(bits);
    let p = encoding::point(bits);
    let n = encoding::whole_magnitude(bits)->0;
    let unit = vstd::arithmetic::power2::pow2(LEAST_POWER as nat) as int;
    let q = vstd::arithmetic::power2::pow2((LEAST_POWER - p) as nat) as int;
    assert(m >= 0);
    assert(p <= LEAST_POWER);
    if p <= 0 {
        let z = vstd::arithmetic::power2::pow2((-p) as nat) as int;
        vstd::arithmetic::power2::lemma_pow2_adds((-p) as nat, LEAST_POWER as nat);
        assert((-p) as nat + LEAST_POWER as nat == (LEAST_POWER - p) as nat);
        assert(m * q == n * unit && n >= 0) by (nonlinear_arith)
            requires
                q == z * unit,
                n == m * z,
                m >= 0,
                z >= 0,
        ;
    } else {
        let z = vstd::arithmetic::power2::pow2(p as nat) as int;
        vstd::arithmetic::power2::lemma_pow2_pos(p as nat);
        vstd::arithmetic::power2::lemma_pow2_adds(p as nat, (LEAST_POWER - p) as nat);
        assert(p as nat + (LEAST_POWER - p) as nat == LEAST_POWER);
        vstd::arithmetic::div_mod::lemma_fundamental_div_mod(m, z);
        assert(m * q == n * unit && n >= 0) by (nonlinear_arith)
            requires
                unit == z * q,
                m == z * n,
                m >= 0,
                z > 0,
        ;
    }
    assert(m * q >= 0) by (nonlinear_arith)
        requires
            m >= 0,
            q >= 0,
    ;
}

proof fn lemma_no_point(digits: Seq<char>)
    requires
        number::is_digits(digits),
    ensures
        number::is_decimal(digits),
        number::mantissa_of(digits) == digits,
        number::mantissa_digits(digits) == digits,
        number::mantissa_places(digits) == 0,
        number::exponent_of(digits) == 0,
        !digits.contains('.'),
{
    let low = number::lower(digits);
    assert forall|j: int| 0 <= j < low.len() implies text::other_than('e')(#[trigger] low[j]) by {
        assert(low[j] == number::ascii_lower(digits[j]));
        assert(text::is_digit(digits[j]));
    }
    text::lemma_run(low, text::other_than('e'), low.len() as int);
    assert forall|j: int| 0 <= j < digits.len() implies text::other_than('.')(
        #[trigger] digits[j],
    ) by {
        assert(text::is_digit(digits[j]));
    }
    text::lemma_run(digits, text::other_than('.'), digits.len() as int);
    if digits.contains('.') {
        let j = choose|j: int| 0 <= j < digits.len() && digits[j] == '.';
        assert(text::is_digit(digits[j]));
    }
}

proof fn lemma_whole_distance(literal: Seq<char>, bits: u64)
    requires
        number::literal_power(literal) == 0,
    ensures
        distance(literal, bits) == magnitude(
            number::literal_digits(literal) * vstd::arithmetic::power2::pow2(LEAST_POWER as nat)
                - in_least_units(bits),
        ),
{
    let n = number::literal_digits(literal);
    let b = in_least_units(bits);
    assert(n * 1 == n && b * 1 == b) by (nonlinear_arith);
}

/// A whole double written out reads as itself.
pub proof fn whole_numbers_read_back(bits: u64)
    requires
        is_finite(bits),
        encoding::whole_magnitude(bits) is Some,
        encoding::whole_magnitude(bits)->0 < encoding::WHOLE_LIMIT,
    ensures
        ({
            let n = encoding::whole_magnitude(bits)->0;
            let literal = number::signed_decimal(
                if encoding::is_negative(bits) {
                    -n
                } else {
                    n
                },
            );
            spells(literal, bits) && number::is_float(literal) && !literal.contains('.')
        }),
{
    let n = encoding::whole_magnitude(bits)->0;
    let i = if encoding::is_negative(bits) {
        -n
    } else {
        n
    };
    let literal = number::signed_decimal(i);
    let digits = number::decimal(n as nat);
    let unit = vstd::arithmetic::power2::pow2(LEAST_POWER as nat) as int;
    lemma_whole(bits);
    number::decimal_reads_back(n as nat);
    lemma_no_point(digits);
    assert(text::is_digit(digits[0]));
    if i < 0 {
        assert(literal == seq!['-'] + digits);
        assert(literal.skip(1) =~= digits);
        assert forall|j: int| 0 <= j < literal.len() implies #[trigger] literal[j] != '.' by {
            if j > 0 {
                assert(literal[j] == digits[j - 1]);
                assert(digits.contains(digits[j - 1]));
            }
        }
    }
    assert(number::unsigned_part(literal) == digits);
    assert(number::literal_digits(literal) == i);
    assert(number::literal_power(literal) == 0);
    assert((-n) * unit == -(n * unit)) by (nonlinear_arith);
    assert(in_least_units(bits) == i * unit);
    lemma_whole_distance(literal, bits);
    assert forall|other: u64| is_finite(other) implies #[trigger] is_nearer(
        literal,
        bits,
        other,
    ) by {
        lemma_whole_distance(literal, other);
    }
    assert(n * 1 == n && overflow() * 1 == overflow()) by (nonlinear_arith);
    vstd::arithmetic::power2::lemma2_to64();
    vstd::arithmetic::power2::lemma_pow2_strictly_increases(64, 970);
    vstd::arithmetic::power2::lemma_pow2_adds(1, 970);
    vstd::arithmetic::power2::lemma_pow2_strictly_increases(971, 1024);
}

} // verus!
