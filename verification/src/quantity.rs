//! The numbers that values stand for, as exact fractions.

use vstd::prelude::*;

use crate::metric::{ReadingView, Scale, ValueView};
use crate::number;

verus! {

/// A fraction: a numerator and a denominator.
pub type Fraction = (int, int);

/// Nanoseconds in a second.
pub open spec fn billion() -> int {
    1_000_000_000
}

/// Ten to the power of `n`, where that is whole, otherwise 1.
pub open spec fn ten_to(n: int) -> int {
    if n > 0 {
        vstd::arithmetic::power::pow(10, n as nat)
    } else {
        1
    }
}

/// The number that a reading is, where it is one.
pub open spec fn reading_fraction(r: ReadingView) -> Option<Fraction> {
    match r {
        ReadingView::Unsigned(n) => Some((n as int, 1)),
        ReadingView::Signed(n) => Some((n as int, 1)),
        ReadingView::Clock { secs, nanos } => Some((secs * billion() + nanos, billion())),
        ReadingView::Span { seconds, nanoseconds } => Some(
            (seconds * billion() + nanoseconds, billion()),
        ),
        ReadingView::Decimal(s) => if number::is_decimal(number::unsigned_part(s)) {
            let p = number::literal_power(s);
            Some((number::literal_digits(s) * ten_to(p), ten_to(-p)))
        } else {
            None
        },
        _ => None,
    }
}

/// The number that a value stands for, where it is one.
pub open spec fn fraction(v: ValueView) -> Option<Fraction> {
    match reading_fraction(v.reading) {
        None => None,
        Some((n, d)) => Some(
            match v.scale {
                Scale::Unit => (n, d),
                Scale::Times(k) => (n * k, d),
                Scale::TimesThousandth => (n, d * 1000),
                Scale::Over(k) => (n, d * k),
                Scale::OnePlusOver(k) => (d * k + n, d * k),
            },
        ),
    }
}

/// Whether a value stands for `n / d`.
pub open spec fn stands_for(v: ValueView, n: int, d: int) -> bool {
    fraction(v) matches Some(f) && f.1 != 0 && f.0 * d == n * f.1
}

/// Whether a value stands for `n / d` times the number that the literal `s`
/// spells.
pub open spec fn spells_times(v: ValueView, s: Seq<char>, n: int, d: int) -> bool {
    let r = reading_fraction(ReadingView::Decimal(s));
    match r {
        Some((a, b)) => stands_for(v, a * n, b * d),
        // A literal that is no number is kept as it is spelled.
        None => v.reading == ReadingView::Decimal(s),
    }
}

/// Scaling a number that a literal spells multiplies it.
pub proof fn literals_are_scaled(s: Seq<char>, scale: Scale)
    ensures
        ({
            let v = ValueView::decimal(s).scaled(scale);
            match scale {
                Scale::Unit => spells_times(v, s, 1, 1),
                Scale::Times(k) => spells_times(v, s, k as int, 1),
                Scale::TimesThousandth => spells_times(v, s, 1, 1000),
                Scale::Over(k) => k != 0 ==> spells_times(v, s, 1, k as int),
                Scale::OnePlusOver(_) => true,
            }
        }),
{
    let v = ValueView::decimal(s).scaled(scale);
    if number::is_decimal(number::unsigned_part(s)) {
        let p = number::literal_power(s);
        if -p > 0 {
            vstd::arithmetic::power::lemma_pow_positive(10, (-p) as nat);
        }
        let a = number::literal_digits(s) * ten_to(p);
        let b = ten_to(-p);
        assert(b > 0);
        let (n, d): (int, int) = match scale {
            Scale::Times(k) => (k as int, 1),
            Scale::TimesThousandth => (1, 1000),
            Scale::Over(k) => (1, k as int),
            _ => (1, 1),
        };
        assert(a * (b * d) == (a * 1) * (b * d));
        assert((a * n) * (b * 1) == (a * n) * b);
        if d != 0 {
            assert(b * d != 0) by (nonlinear_arith)
                requires
                    b > 0,
                    d != 0,
            ;
        }
    }
}

} // verus!
