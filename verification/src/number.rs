//! Numbers as decimal text: what text spells an integer or a floating-point
//! literal, and how integers are written out.

use vstd::prelude::*;
use vstd::slice::slice_subrange;

use crate::text;
use crate::text::{digit, find_char, same};

verus! {

// ------------------------------------------------------------ reading text

/// The value of the digit `c`.
pub open spec fn digit_value(c: char) -> nat {
    (c as int - '0' as int) as nat
}

/// The value of a run of digits read in base ten.
pub open spec fn digits_value(s: Seq<char>) -> nat
    decreases s.len(),
{
    if s.len() == 0 {
        0
    } else {
        digits_value(s.drop_last()) * 10 + digit_value(s.last())
    }
}

pub open spec fn all_digits(s: Seq<char>) -> bool {
    forall|i: int| 0 <= i < s.len() ==> text::is_digit(#[trigger] s[i])
}

/// One digit or more and nothing else.
pub open spec fn is_digits(s: Seq<char>) -> bool {
    s.len() > 0 && all_digits(s)
}

/// The number that `s` spells: digits, with an optional `+` or `-` before
/// them.
pub open spec fn integer_value(s: Seq<char>) -> Option<int> {
    if s.len() > 0 && s[0] == '-' {
        if is_digits(s.skip(1)) {
            Some(-(digits_value(s.skip(1)) as int))
        } else {
            None
        }
    } else if s.len() > 0 && s[0] == '+' {
        if is_digits(s.skip(1)) {
            Some(digits_value(s.skip(1)) as int)
        } else {
            None
        }
    } else if is_digits(s) {
        Some(digits_value(s) as int)
    } else {
        None
    }
}

/// The number below or at `max` that `s` spells: digits, with an optional `+`
/// before them. A `-` is not accepted, not even before a zero.
pub open spec fn unsigned_value(s: Seq<char>, max: int) -> Option<int> {
    match integer_value(s) {
        Some(n) => if s[0] != '-' && n <= max {
            Some(n)
        } else {
            None
        },
        None => None,
    }
}

/// What `s` spells as a `u64`.
pub open spec fn u64_value(s: Seq<char>) -> Option<u64> {
    match unsigned_value(s, u64::MAX as int) {
        Some(n) => Some(n as u64),
        None => None,
    }
}

/// What `s` spells as a `u32`.
pub open spec fn u32_value(s: Seq<char>) -> Option<u32> {
    match unsigned_value(s, u32::MAX as int) {
        Some(n) => Some(n as u32),
        None => None,
    }
}

/// What `s` spells as an `i64`.
pub open spec fn i64_value(s: Seq<char>) -> Option<i64> {
    match integer_value(s) {
        Some(n) => if i64::MIN <= n <= i64::MAX {
            Some(n as i64)
        } else {
            None
        },
        None => None,
    }
}

/// Further digits never make a number smaller.
proof fn lemma_digits_grow(s: Seq<char>, n: int)
    requires
        0 <= n <= s.len(),
    ensures
        digits_value(s.take(n)) <= digits_value(s),
    decreases s.len() - n,
{
    if n == s.len() {
        assert(s.take(n) =~= s);
    } else {
        assert(s.drop_last().take(n) =~= s.take(n));
        lemma_digits_grow(s.drop_last(), n);
    }
}

/// Reads digits as a number of at most `max`.
fn read_digits(s: &[char], max: u64) -> (r: Option<u64>)
    ensures
        match r {
            Some(n) => is_digits(s@) && n == digits_value(s@) && n <= max,
            None => !is_digits(s@) || digits_value(s@) > max,
        },
{
    if s.len() == 0 {
        return None;
    }
    let mut n: u128 = 0;
    let mut i: usize = 0;
    while i < s.len()
        invariant
            i <= s@.len(),
            all_digits(s@.take(i as int)),
            n == digits_value(s@.take(i as int)),
            n <= max,
        decreases s@.len() - i,
    {
        let c = s[i];
        if !digit(c) {
            assert(!text::is_digit(s@[i as int]));
            return None;
        }
        let ghost next = s@.take(i + 1);
        proof {
            assert(next.drop_last() =~= s@.take(i as int));
            assert forall|j: int| 0 <= j < next.len() implies text::is_digit(#[trigger] next[j]) by {
                if j < i {
                    assert(next[j] == s@.take(i as int)[j]);
                }
            }
        }
        n = n * 10 + (c as u32 - '0' as u32) as u128;
        i = i + 1;
        assert(n == digits_value(next));
        if n > max as u128 {
            proof {
                lemma_digits_grow(s@, i as int);
            }
            return None;
        }
    }
    assert(s@.take(s@.len() as int) =~= s@);
    Some(n as u64)
}

/// Reads an unsigned number of at most `max`.
fn parse_unsigned(s: &[char], max: u64) -> (r: Option<u64>)
    ensures
        match r {
            Some(n) => unsigned_value(s@, max as int) == Some(n as int) && n <= max,
            None => unsigned_value(s@, max as int) is None,
        },
{
    if s.len() > 0 && s[0] == '+' {
        let rest = slice_subrange(s, 1, s.len());
        read_digits(rest, max)
    } else {
        proof {
            if s@.len() > 0 && s@[0] == '-' {
                assert(!text::is_digit(s@[0]));
            }
        }
        read_digits(s, max)
    }
}

/// Reads a `u64`.
pub fn parse_u64(s: &[char]) -> (r: Option<u64>)
    ensures
        r == u64_value(s@),
{
    parse_unsigned(s, u64::MAX)
}

/// Reads a `u32`.
pub fn parse_u32(s: &[char]) -> (r: Option<u32>)
    ensures
        r == u32_value(s@),
{
    match parse_unsigned(s, u32::MAX as u64) {
        Some(n) => Some(n as u32),
        None => None,
    }
}

/// Reads an `i64`.
pub fn parse_i64(s: &[char]) -> (r: Option<i64>)
    ensures
        r == i64_value(s@),
{
    if s.len() > 0 && s[0] == '-' {
        let rest = slice_subrange(s, 1, s.len());
        match read_digits(rest, 0x8000_0000_0000_0000) {
            Some(n) => if n == 0x8000_0000_0000_0000 {
                Some(i64::MIN)
            } else {
                Some(-(n as i64))
            },
            None => None,
        }
    } else {
        match parse_unsigned(s, i64::MAX as u64) {
            Some(n) => Some(n as i64),
            None => None,
        }
    }
}

/// How many fields, from the first on, spell a `u64`.
pub open spec fn u64_run(fields: Seq<Seq<char>>) -> int
    decreases fields.len(),
{
    if fields.len() > 0 && u64_value(fields[0]) is Some {
        1 + u64_run(fields.drop_first())
    } else {
        0
    }
}

/// The numbers that the fields spell.
pub open spec fn u64_values(fields: Seq<Seq<char>>) -> Seq<u64> {
    fields.map_values(|f: Seq<char>| u64_value(f)->0)
}

/// The run of numbers ends at the first field that is none, or where the
/// fields end.
pub proof fn lemma_u64_run(fields: Seq<Seq<char>>, n: int)
    requires
        0 <= n <= fields.len(),
        forall|j: int| 0 <= j < n ==> u64_value(#[trigger] fields[j]) is Some,
        n == fields.len() || u64_value(fields[n]) is None,
    ensures
        u64_run(fields) == n,
    decreases n,
{
    if n > 0 {
        assert(u64_value(fields[0]) is Some);
        assert forall|j: int| 0 <= j < n - 1 implies u64_value(
            #[trigger] fields.drop_first()[j],
        ) is Some by {
            assert(fields.drop_first()[j] == fields[j + 1]);
        }
        lemma_u64_run(fields.drop_first(), n - 1);
    }
}

/// Every field of the run spells a `u64`, and the field that ends it does not.
pub proof fn lemma_u64_run_meaning(fields: Seq<Seq<char>>)
    ensures
        0 <= u64_run(fields) <= fields.len(),
        forall|j: int| 0 <= j < u64_run(fields) ==> u64_value(#[trigger] fields[j]) is Some,
        u64_run(fields) < fields.len() ==> u64_value(fields[u64_run(fields)]) is None,
    decreases fields.len(),
{
    if fields.len() > 0 && u64_value(fields[0]) is Some {
        let rest = fields.drop_first();
        lemma_u64_run_meaning(rest);
        assert forall|j: int| 0 <= j < u64_run(fields) implies u64_value(
            #[trigger] fields[j],
        ) is Some by {
            if j > 0 {
                assert(fields[j] == rest[j - 1]);
            }
        }
    }
}

/// Reads every field as a `u64`; the error is the position of the first that
/// is none.
pub fn parse_u64_fields(fields: &[&[char]]) -> (r: Result<Vec<u64>, usize>)
    ensures
        match r {
            Ok(v) => u64_run(text::views(fields@)) == fields@.len() && v@ == u64_values(
                text::views(fields@),
            ),
            Err(i) => i < fields@.len() && u64_run(text::views(fields@)) == i,
        },
{
    let ghost all = text::views(fields@);
    let mut out: Vec<u64> = Vec::new();
    let mut i: usize = 0;
    while i < fields.len()
        invariant
            i <= fields@.len(),
            all == text::views(fields@),
            out@.len() == i,
            forall|j: int| 0 <= j < i ==> u64_value(#[trigger] all[j]) == Some(out@[j]),
        decreases fields@.len() - i,
    {
        assert(all[i as int] == fields@[i as int]@);
        match parse_u64(fields[i]) {
            Some(n) => {
                out.push(n);
            },
            None => {
                proof {
                    lemma_u64_run(all, i as int);
                }
                return Err(i);
            },
        }
        i = i + 1;
    }
    proof {
        lemma_u64_run(all, i as int);
        assert forall|j: int| 0 <= j < out@.len() implies out@[j] == u64_values(all)[j] by {
            assert(u64_value(all[j]) == Some(out@[j]));
        }
        assert(out@ =~= u64_values(all));
    }
    Ok(out)
}

// ------------------------------------------------- floating-point literals

/// The ASCII letters of `s` in lower case.
pub open spec fn ascii_lower(c: char) -> char {
    if 'A' <= c <= 'Z' {
        (c as u32 + 32) as char
    } else {
        c
    }
}

pub fn to_ascii_lower(c: char) -> (r: char)
    ensures
        r == ascii_lower(c),
{
    if 'A' <= c && c <= 'Z' {
        (c as u8 + 32) as char
    } else {
        c
    }
}

/// `s` with its ASCII letters in lower case.
pub open spec fn lower(s: Seq<char>) -> Seq<char> {
    s.map_values(|c: char| ascii_lower(c))
}

/// `s` without one leading sign.
pub open spec fn unsigned_part(s: Seq<char>) -> Seq<char> {
    if s.len() > 0 && (s[0] == '+' || s[0] == '-') {
        s.skip(1)
    } else {
        s
    }
}

/// Digits with at most one point among them, and at least one digit.
pub open spec fn is_mantissa(s: Seq<char>) -> bool {
    let dot = text::first_index(s, '.');
    if dot >= s.len() {
        is_digits(s)
    } else {
        s.len() > 1 && all_digits(s.take(dot)) && all_digits(s.skip(dot + 1))
    }
}

/// A mantissa, and optionally an `e` with a signed exponent after it.
pub open spec fn is_decimal(s: Seq<char>) -> bool {
    let e = text::first_index(lower(s), 'e');
    if e >= s.len() {
        is_mantissa(s)
    } else {
        is_mantissa(s.take(e)) && is_digits(unsigned_part(s.skip(e + 1)))
    }
}

/// Whether `s` is a floating-point literal: an optional sign, then a decimal
/// number or one of the words `inf`, `infinity` and `nan` in any case.
pub open spec fn is_float(s: Seq<char>) -> bool {
    let t = unsigned_part(s);
    lower(t) == "inf"@ || lower(t) == "infinity"@ || lower(t) == "nan"@ || is_decimal(t)
}

/// The digits of a mantissa, without the point.
pub open spec fn mantissa_digits(s: Seq<char>) -> Seq<char> {
    let dot = text::first_index(s, '.');
    if dot >= s.len() {
        s
    } else {
        s.take(dot) + s.skip(dot + 1)
    }
}

/// How many digits of a mantissa are behind the point.
pub open spec fn mantissa_places(s: Seq<char>) -> int {
    let dot = text::first_index(s, '.');
    if dot >= s.len() {
        0
    } else {
        s.len() - dot - 1
    }
}

/// The mantissa of a decimal number.
pub open spec fn mantissa_of(s: Seq<char>) -> Seq<char> {
    let e = text::first_index(lower(s), 'e');
    if e >= s.len() {
        s
    } else {
        s.take(e)
    }
}

/// The exponent of a decimal number, 0 where it has none.
pub open spec fn exponent_of(s: Seq<char>) -> int {
    let e = text::first_index(lower(s), 'e');
    if e >= s.len() {
        0
    } else {
        integer_value(s.skip(e + 1))->0
    }
}

/// A literal with a decimal number spells `literal_digits` times ten to the
/// power of `literal_power`.
pub open spec fn literal_digits(s: Seq<char>) -> int {
    let n = digits_value(mantissa_digits(mantissa_of(unsigned_part(s)))) as int;
    if s.len() > 0 && s[0] == '-' {
        -n
    } else {
        n
    }
}

/// See [`literal_digits`].
pub open spec fn literal_power(s: Seq<char>) -> int {
    let t = unsigned_part(s);
    exponent_of(t) - mantissa_places(mantissa_of(t))
}

pub fn only_digits(s: &[char]) -> (r: bool)
    ensures
        r == all_digits(s@),
{
    let mut i: usize = 0;
    while i < s.len()
        invariant
            i <= s@.len(),
            forall|j: int| 0 <= j < i ==> text::is_digit(#[trigger] s@[j]),
        decreases s@.len() - i,
    {
        if !digit(s[i]) {
            assert(!text::is_digit(s@[i as int]));
            return false;
        }
        i = i + 1;
    }
    true
}

fn without_sign<'a>(s: &'a [char]) -> (r: &'a [char])
    ensures
        r@ == unsigned_part(s@),
{
    if s.len() > 0 && (s[0] == '+' || s[0] == '-') {
        slice_subrange(s, 1, s.len())
    } else {
        s
    }
}

fn lowered(s: &[char]) -> (r: Vec<char>)
    ensures
        r@ == lower(s@),
{
    let mut out: Vec<char> = Vec::new();
    let mut i: usize = 0;
    while i < s.len()
        invariant
            i <= s@.len(),
            out@ == lower(s@.take(i as int)),
        decreases s@.len() - i,
    {
        proof {
            assert(lower(s@.take(i + 1)) =~= lower(s@.take(i as int)).push(
                ascii_lower(s@[i as int]),
            ));
        }
        out.push(to_ascii_lower(s[i]));
        i = i + 1;
    }
    assert(s@.take(s@.len() as int) =~= s@);
    out
}

fn mantissa(s: &[char]) -> (r: bool)
    ensures
        r == is_mantissa(s@),
{
    let dot = find_char(s, '.');
    if dot == s.len() {
        s.len() > 0 && only_digits(s)
    } else {
        s.len() > 1 && only_digits(slice_subrange(s, 0, dot)) && only_digits(
            slice_subrange(s, dot + 1, s.len()),
        )
    }
}

/// Whether `s` is a floating-point literal.
pub fn float_literal(s: &[char]) -> (r: bool)
    ensures
        r == is_float(s@),
{
    let t = without_sign(s);
    let low = lowered(t);
    if same(low.as_slice(), "inf") || same(low.as_slice(), "infinity") || same(
        low.as_slice(),
        "nan",
    ) {
        return true;
    }
    let e = find_char(low.as_slice(), 'e');
    if e == t.len() {
        mantissa(t)
    } else {
        let exponent = without_sign(slice_subrange(t, e + 1, t.len()));
        mantissa(slice_subrange(t, 0, e)) && exponent.len() > 0 && only_digits(exponent)
    }
}

// ------------------------------------------------------------ writing text

/// The character of the digit `d`.
pub open spec fn digit_char(d: int) -> char {
    ('0' as int + d) as char
}

/// `n` in base ten, without leading zeros.
pub open spec fn decimal(n: nat) -> Seq<char>
    decreases n,
{
    if n < 10 {
        seq![digit_char(n as int)]
    } else {
        decimal(n / 10).push(digit_char((n % 10) as int))
    }
}

/// `i` in base ten, with a `-` before it where it is negative.
pub open spec fn signed_decimal(i: int) -> Seq<char> {
    if i < 0 {
        seq!['-'] + decimal((-i) as nat)
    } else {
        decimal(i as nat)
    }
}

/// Appends `n` in base ten to `out`.
pub fn push_decimal(out: &mut String, n: u64)
    ensures
        final(out)@ == old(out)@ + decimal(n as nat),
    decreases n,
{
    if n >= 10 {
        push_decimal(out, n / 10);
    }
    let d: u8 = 48 + (n % 10) as u8;
    out.push(d as char);
    proof {
        let last = digit_char((n % 10) as int);
        if n >= 10 {
            assert((old(out)@ + decimal(n as nat / 10)).push(last) =~= old(out)@ + decimal(
                n as nat,
            ));
        } else {
            assert(old(out)@.push(last) =~= old(out)@ + decimal(n as nat));
        }
    }
}

/// Digits written out and read back give the number again.
pub proof fn decimal_reads_back(n: nat)
    ensures
        is_digits(decimal(n)),
        digits_value(decimal(n)) == n,
        integer_value(decimal(n)) == Some(n as int),
    decreases n,
{
    let s = decimal(n);
    if n < 10 {
        assert(s.drop_last() =~= Seq::<char>::empty());
        assert(digits_value(s.drop_last()) == 0);
        assert(s.last() == digit_char(n as int));
    } else {
        decimal_reads_back(n / 10);
        let head = decimal(n / 10);
        assert(s.drop_last() =~= head);
        assert forall|i: int| 0 <= i < s.len() implies text::is_digit(#[trigger] s[i]) by {
            if i < head.len() {
                assert(s[i] == head[i]);
            }
        }
    }
    assert(text::is_digit(s[0]));
}

/// A number within 64 bits that is written out is read back, one beyond them is
/// refused.
pub proof fn decimals_are_u64s(n: nat)
    ensures
        u64_value(decimal(n)) == if n <= u64::MAX {
            Some(n as u64)
        } else {
            None
        },
        text::is_word(decimal(n)),
{
    decimal_reads_back(n);
    let s = decimal(n);
    assert(text::is_digit(s[0]));
    assert forall|i: int| 0 <= i < s.len() implies !text::is_ascii_space(#[trigger] s[i]) by {
        assert(text::is_digit(s[i]));
    }
}

/// What spells a number is a word.
pub proof fn numbers_are_words(s: Seq<char>)
    requires
        integer_value(s) is Some,
    ensures
        text::is_word(s),
{
    assert forall|i: int| 0 <= i < s.len() implies !text::is_ascii_space(#[trigger] s[i]) by {
        if s[0] == '-' || s[0] == '+' {
            if i > 0 {
                assert(s[i] == s.skip(1)[i - 1]);
            }
        } else {
            assert(text::is_digit(s[i]));
        }
    }
}

/// Digits are read by their places: those in front count as many times ten as
/// there are digits behind them.
pub proof fn digits_count_by_place(a: Seq<char>, b: Seq<char>)
    ensures
        digits_value(a + b) == digits_value(a) * vstd::arithmetic::power::pow(10, b.len())
            + digits_value(b),
    decreases b.len(),
{
    if b.len() == 0 {
        assert(a + b =~= a);
        vstd::arithmetic::power::lemma_pow0(10);
    } else {
        let front = b.drop_last();
        digits_count_by_place(a, front);
        assert((a + b).drop_last() =~= a + front);
        assert((a + b).last() == b.last());
        let x = digits_value(a) as int;
        let y = vstd::arithmetic::power::pow(10, front.len());
        vstd::arithmetic::power::lemma_pow_adds(10, front.len(), 1);
        vstd::arithmetic::power::lemma_pow1(10);
        assert(vstd::arithmetic::power::pow(10, b.len()) == y * 10);
        assert((x * y + digits_value(front)) * 10 == x * (y * 10) + digits_value(front) * 10)
            by (nonlinear_arith);
    }
}

/// A single digit is its distance from `0`.
pub proof fn single_digits_are_read(d: int)
    requires
        0 <= d < 10,
    ensures
        digits_value(seq![('0' as int + d) as char]) == d,
        digits_value(seq![]) == 0,
        digit_char(d) == ('0' as int + d) as char,
{
    let s = seq![('0' as int + d) as char];
    assert(s.drop_last() =~= Seq::<char>::empty());
    assert(digits_value(s.drop_last()) == 0);
}

/// A number is its digits, and a sign before them makes it negative or not. Text
/// of any other form is no number.
pub proof fn integers_are_signed_digits(d: Seq<char>, s: Seq<char>)
    requires
        is_digits(d),
    ensures
        integer_value(d) == Some(digits_value(d) as int),
        integer_value(seq!['+'] + d) == Some(digits_value(d) as int),
        integer_value(seq!['-'] + d) == Some(-(digits_value(d) as int)),
        integer_value(s) is Some ==> s.len() > 0 && forall|i: int|
            1 <= i < s.len() ==> text::is_digit(#[trigger] s[i]),
        integer_value(s) is Some ==> text::is_digit(s[0]) || (s[0] == '-' || s[0] == '+')
            && s.len() > 1,
{
    assert(text::is_digit(d[0]));
    assert((seq!['+'] + d).skip(1) =~= d);
    assert((seq!['-'] + d).skip(1) =~= d);
    if integer_value(s) is Some {
        if s[0] == '-' || s[0] == '+' {
            let t = s.skip(1);
            assert forall|i: int| 1 <= i < s.len() implies text::is_digit(#[trigger] s[i]) by {
                assert(text::is_digit(t[i - 1]));
            }
        } else {
            assert(text::is_digit(s[0]));
        }
    }
}

/// A number is read into a width where it fits it, and refused where it does not.
/// Unsigned widths refuse a minus sign too.
pub proof fn numbers_fit_their_width(s: Seq<char>, n: int)
    requires
        integer_value(s) == Some(n),
    ensures
        u64_value(s) == if s[0] != '-' && n <= 18_446_744_073_709_551_615 {
            Some(n as u64)
        } else {
            None
        },
        u32_value(s) == if s[0] != '-' && n <= 4_294_967_295 {
            Some(n as u32)
        } else {
            None
        },
        i64_value(s) == if -9_223_372_036_854_775_808 <= n <= 9_223_372_036_854_775_807 {
            Some(n as i64)
        } else {
            None
        },
{
}

/// What is no number fits no width.
pub proof fn other_text_is_no_number(s: Seq<char>)
    requires
        integer_value(s) is None,
    ensures
        u64_value(s) is None,
        u32_value(s) is None,
        i64_value(s) is None,
{
}

/// Whether `s` is nothing, or an `e` of either case and a whole number.
pub open spec fn is_exponent(s: Seq<char>) -> bool {
    s.len() == 0 || (s[0] == 'e' || s[0] == 'E') && integer_value(s.skip(1)) is Some
}

/// A literal is a sign or none, digits with a point among them or none, and an
/// exponent or none. It spells its digits, the sign before them, times ten to the
/// power of its exponent less the digits behind the point.
pub proof fn literals_spell_their_parts(
    sign: Seq<char>,
    a: Seq<char>,
    point: bool,
    b: Seq<char>,
    exponent: Seq<char>,
)
    requires
        sign.len() == 0 || sign == seq!['+'] || sign == seq!['-'],
        all_digits(a),
        all_digits(b),
        a.len() + b.len() > 0,
        !point ==> b.len() == 0,
        is_exponent(exponent),
    ensures
        ({
            let dot: Seq<char> = if point {
                seq!['.']
            } else {
                seq![]
            };
            let s = sign + a + dot + b + exponent;
            let n = digits_value(a + b) as int;
            let e = if exponent.len() == 0 {
                0
            } else {
                integer_value(exponent.skip(1))->0
            };
            &&& is_float(s)
            &&& is_decimal(unsigned_part(s))
            &&& literal_digits(s) == if sign == seq!['-'] {
                -n
            } else {
                n
            }
            &&& literal_power(s) == e - b.len()
        }),
{
    let dot: Seq<char> = if point {
        seq!['.']
    } else {
        seq![]
    };
    let m = a + dot + b;
    let t = m + exponent;
    let s = sign + a + dot + b + exponent;
    assert(s =~= sign + t);
    assert forall|i: int| 0 <= i < m.len() implies text::is_digit(#[trigger] m[i]) || m[i]
        == '.' by {
        if i < a.len() {
            assert(text::is_digit(a[i]));
        } else if i >= a.len() + dot.len() {
            assert(text::is_digit(b[i - a.len() - dot.len()]));
        }
    }
    assert(m.len() > 0);
    assert(t[0] == m[0]);
    assert(unsigned_part(s) =~= t);
    let k = m.len() as int;
    let low = lower(t);
    assert forall|j: int| 0 <= j < k implies text::other_than('e')(#[trigger] low[j]) by {
        assert(t[j] == m[j]);
    }
    if exponent.len() > 0 {
        assert(t[k] == exponent[0]);
        assert(low[k] == 'e') by {
            assert(('E' as u32 + 32) as char == 'e');
        }
        assert(t.skip(k + 1) =~= exponent.skip(1));
        let x = exponent.skip(1);
        assert(is_digits(unsigned_part(x)));
    }
    text::lemma_run(low, text::other_than('e'), k);
    assert(t.take(k) =~= m);
    if exponent.len() == 0 {
        assert(t =~= m);
    }
    let n = a.len() as int;
    assert forall|j: int| 0 <= j < n implies text::other_than('.')(#[trigger] m[j]) by {
        assert(text::is_digit(a[j]));
    }
    if point {
        assert(m[n] == '.');
        text::lemma_run(m, text::other_than('.'), n);
        assert(m.take(n) =~= a);
        assert(m.skip(n + 1) =~= b);
    } else {
        assert(m =~= a);
        assert(a + b =~= a);
        text::lemma_run(m, text::other_than('.'), n);
    }
}

/// A literal that is no word has those parts and no others.
pub proof fn literals_have_their_parts(s: Seq<char>) -> (r: (
    Seq<char>,
    Seq<char>,
    bool,
    Seq<char>,
    Seq<char>,
))
    requires
        is_decimal(unsigned_part(s)),
    ensures
        ({
            let (sign, a, point, b, exponent) = r;
            let dot: Seq<char> = if point {
                seq!['.']
            } else {
                seq![]
            };
            &&& sign.len() == 0 || sign == seq!['+'] || sign == seq!['-']
            &&& all_digits(a)
            &&& all_digits(b)
            &&& a.len() + b.len() > 0
            &&& !point ==> b.len() == 0
            &&& is_exponent(exponent)
            &&& s == sign + a + dot + b + exponent
        }),
{
    let t = unsigned_part(s);
    let sign = if s.len() > 0 && (s[0] == '+' || s[0] == '-') {
        seq![s[0]]
    } else {
        seq![]
    };
    assert(s =~= sign + t);
    let low = lower(t);
    let e = text::first_index(low, 'e');
    text::lemma_run_meaning(low, text::other_than('e'));
    let m = mantissa_of(t);
    let exponent = if e >= t.len() {
        Seq::<char>::empty()
    } else {
        t.skip(e)
    };
    assert(t =~= m + exponent);
    if e < t.len() {
        assert(!text::other_than('e')(low[e]));
        assert(low[e] == ascii_lower(t[e]));
        assert(t[e] == 'e' || t[e] == 'E') by {
            if 'A' <= t[e] <= 'Z' && t[e] != 'E' {
                let c = t[e];
                assert(c as u32 != 'E' as u32);
                assert((c as u32 + 32) as char != 'e');
            }
        }
        assert(exponent.skip(1) =~= t.skip(e + 1));
        let x = exponent.skip(1);
        assert(is_digits(unsigned_part(x)));
        assert(integer_value(x) is Some);
    }
    let dot = text::first_index(m, '.');
    text::lemma_run_meaning(m, text::other_than('.'));
    if dot >= m.len() {
        assert(m =~= m + Seq::<char>::empty() + Seq::<char>::empty());
        assert(s =~= sign + m + Seq::<char>::empty() + Seq::<char>::empty() + exponent);
        (sign, m, false, Seq::<char>::empty(), exponent)
    } else {
        assert(!text::other_than('.')(m[dot]));
        let a = m.take(dot);
        let b = m.skip(dot + 1);
        assert(m =~= a + seq!['.'] + b);
        assert(s =~= sign + a + seq!['.'] + b + exponent);
        (sign, a, true, b, exponent)
    }
}

} // verus!
