//! Prometheus text exposition format encoder.
//!
//! Implements the subset of the 0.0.4 text format that `node_exporter` emits:
//! `# HELP`, `# TYPE`, and one sample per line.

use vstd::prelude::*;

use crate::metric;
use crate::metric::{Double, DoubleView, LabelView, Metric, MetricView, Sample, SampleView};
use crate::number;
use crate::number::push_decimal;

verus! {

pub const CONTENT_TYPE: &'static str = "text/plain; version=0.0.4; charset=utf-8";

// --------------------------------------------------------------------- values

/// The weight of the lowest exponent bit of a double: 2 to the 52nd.
pub const FRACTION_UNIT: u64 = 4_503_599_627_370_496;

/// The weight of the sign bit of a double: 2 to the 63rd.
pub const SIGN_UNIT: u64 = 9_223_372_036_854_775_808;

/// The exponent field of infinities and of what is no number.
pub const MAX_EXPONENT: u64 = 2047;

/// The exponent field of the doubles whose significand counts whole units.
pub const UNIT_EXPONENT: u64 = 1075;

/// Whole numbers are written without an exponent or a decimal point up to
/// here: 10 to the 15th.
pub const WHOLE_LIMIT: u64 = 1_000_000_000_000_000;

/// The exponent field of a double.
pub open spec fn exponent(bits: u64) -> u64 {
    bits / FRACTION_UNIT % 2048
}

/// The fraction field of a double.
pub open spec fn fraction(bits: u64) -> u64 {
    bits % FRACTION_UNIT
}

pub open spec fn is_negative(bits: u64) -> bool {
    bits >= SIGN_UNIT
}

pub open spec fn is_nan(bits: u64) -> bool {
    exponent(bits) == MAX_EXPONENT && fraction(bits) != 0
}

pub open spec fn is_infinite(bits: u64) -> bool {
    exponent(bits) == MAX_EXPONENT && fraction(bits) == 0
}

/// The significand of a finite double: the fraction, and in all but the
/// smallest doubles a leading one.
pub open spec fn significand(bits: u64) -> int {
    if exponent(bits) == 0 {
        fraction(bits) as int
    } else {
        FRACTION_UNIT + fraction(bits)
    }
}

/// How many of the significand's bits are behind the point. Negative where
/// zeros follow the significand.
pub open spec fn point(bits: u64) -> int {
    if exponent(bits) == 0 {
        UNIT_EXPONENT - 1
    } else {
        UNIT_EXPONENT - exponent(bits)
    }
}

/// The magnitude of a finite double that is a whole number.
pub open spec fn whole_magnitude(bits: u64) -> Option<int> {
    let m = significand(bits);
    let p = point(bits);
    if p <= 0 {
        Some(m * vstd::arithmetic::power2::pow2((-p) as nat))
    } else if m % (vstd::arithmetic::power2::pow2(p as nat) as int) == 0 {
        Some(m / (vstd::arithmetic::power2::pow2(p as nat) as int))
    } else {
        None
    }
}

/// The text of a value. A whole number of fewer than sixteen digits is written
/// without a decimal point.
pub open spec fn value_text(v: DoubleView) -> Seq<char> {
    if is_nan(v.bits) {
        "NaN"@
    } else if is_infinite(v.bits) {
        if is_negative(v.bits) {
            "-Inf"@
        } else {
            "+Inf"@
        }
    } else {
        match whole_magnitude(v.bits) {
            Some(n) => if n < WHOLE_LIMIT {
                number::signed_decimal(
                    if is_negative(v.bits) {
                        -n
                    } else {
                        n
                    },
                )
            } else {
                v.shortest
            },
            None => v.shortest,
        }
    }
}

/// The magnitude of a finite double, where it is a whole number below
/// `WHOLE_LIMIT`.
fn small_whole(bits: u64) -> (r: Option<u64>)
    requires
        exponent(bits) < MAX_EXPONENT,
    ensures
        match r {
            Some(n) => n < WHOLE_LIMIT && whole_magnitude(bits) == Some(n as int),
            None => match whole_magnitude(bits) {
                Some(n) => n >= WHOLE_LIMIT,
                None => true,
            },
        },
{
    let e: u64 = bits / FRACTION_UNIT % 2048;
    let f: u64 = bits % FRACTION_UNIT;
    if e >= UNIT_EXPONENT {
        proof {
            let z = vstd::arithmetic::power2::pow2((e - UNIT_EXPONENT) as nat) as int;
            vstd::arithmetic::power2::lemma_pow2_pos((e - UNIT_EXPONENT) as nat);
            assert(significand(bits) * z >= significand(bits)) by (nonlinear_arith)
                requires
                    z >= 1,
                    significand(bits) >= 0,
            ;
        }
        return None;
    }
    let m: u64 = if e == 0 {
        f
    } else {
        FRACTION_UNIT + f
    };
    let p: u64 = if e == 0 {
        UNIT_EXPONENT - 1
    } else {
        UNIT_EXPONENT - e
    };
    proof {
        vstd::arithmetic::power2::lemma2_to64_rest();
        vstd::arithmetic::power2::lemma_pow2_pos(p as nat);
    }
    if p > 52 {
        proof {
            if p > 53 {
                vstd::arithmetic::power2::lemma_pow2_strictly_increases(53, p as nat);
            }
            vstd::arithmetic::div_mod::lemma_small_mod(m as nat, vstd::arithmetic::power2::pow2(p as nat));
        }
        if m == 0 {
            proof {
                assert(0int / (vstd::arithmetic::power2::pow2(p as nat) as int) == 0) by (nonlinear_arith)
                    requires
                        vstd::arithmetic::power2::pow2(p as nat) > 0,
                ;
            }
            return Some(0);
        }
        return None;
    }
    proof {
        if p < 52 {
            vstd::arithmetic::power2::lemma_pow2_strictly_increases(p as nat, 52);
        }
        vstd::bits::lemma_u64_shl_is_mul(1, p);
    }
    let unit: u64 = 1u64 << p;
    assert(unit == vstd::arithmetic::power2::pow2(p as nat));
    if m % unit != 0 {
        return None;
    }
    let n: u64 = m / unit;
    if n < WHOLE_LIMIT {
        Some(n)
    } else {
        None
    }
}

/// Adds the text of a value.
pub fn write_value(out: &mut String, v: &Double)
    ensures
        final(out)@ == old(out)@ + value_text(v@),
{
    let e: u64 = v.bits / FRACTION_UNIT % 2048;
    let negative = v.bits >= SIGN_UNIT;
    if e == MAX_EXPONENT {
        if v.bits % FRACTION_UNIT != 0 {
            out.push_str("NaN");
        } else if negative {
            out.push_str("-Inf");
        } else {
            out.push_str("+Inf");
        }
        return ;
    }
    match small_whole(v.bits) {
        Some(n) => {
            let ghost before = out@;
            if negative && n > 0 {
                out.push('-');
            }
            push_decimal(out, n);
            proof {
                if negative && n > 0 {
                    assert(out@ =~= before + (seq!['-'] + number::decimal(n as nat)));
                }
            }
        },
        None => {
            out.push_str(v.shortest.as_str());
        },
    }
}

// --------------------------------------------------------------------- labels

/// How a character of a label's value is written.
pub open spec fn label_char(c: char) -> Seq<char> {
    if c == '\\' {
        "\\\\"@
    } else if c == '"' {
        "\\\""@
    } else if c == '\n' {
        "\\n"@
    } else {
        seq![c]
    }
}

/// How a label's value is written between its quotes.
pub open spec fn escaped_label(s: Seq<char>) -> Seq<char>
    decreases s.len(),
{
    if s.len() == 0 {
        seq![]
    } else {
        escaped_label(s.drop_last()) + label_char(s.last())
    }
}

/// A label.
pub open spec fn label_text(l: LabelView) -> Seq<char> {
    l.0 + "=\""@ + escaped_label(l.1) + "\""@
}

/// The first `n` labels, with commas between them.
pub open spec fn label_texts(labels: Seq<LabelView>, n: int) -> Seq<char>
    decreases n,
{
    if n <= 0 {
        seq![]
    } else if n == 1 {
        label_text(labels[0])
    } else {
        label_texts(labels, n - 1).push(',') + label_text(labels[n - 1])
    }
}

/// The labels in braces; nothing where there are none.
pub open spec fn labels_text(labels: Seq<LabelView>) -> Seq<char> {
    if labels.len() == 0 {
        seq![]
    } else {
        "{"@ + label_texts(labels, labels.len() as int) + "}"@
    }
}

fn push_label_value(out: &mut String, v: &str)
    ensures
        final(out)@ == old(out)@ + escaped_label(v@),
{
    let ghost before = out@;
    assert(before + escaped_label(v@.take(0)) =~= before);
    for c in it: v.chars()
        invariant
            it.seq() == v@,
            out@ == before + escaped_label(v@.take(it.index())),
    {
        proof {
            let i = it.index();
            assert(v@.take(i + 1).drop_last() =~= v@.take(i));
            assert(v@.take(i + 1).last() == c);
            assert(before + escaped_label(v@.take(i)) + label_char(c) =~= before + (escaped_label(
                v@.take(i),
            ) + label_char(c)));
        }
        if c == '\\' {
            out.push_str("\\\\");
        } else if c == '"' {
            out.push_str("\\\"");
        } else if c == '\n' {
            out.push_str("\\n");
        } else {
            let ghost had = out@;
            out.push(c);
            assert(had.push(c) =~= had + seq![c]);
        }
    }
    assert(v@.take(v@.len() as int) =~= v@);
}

/// Adds the labels of a sample.
pub fn write_labels(out: &mut String, labels: &Vec<(String, String)>)
    ensures
        final(out)@ == old(out)@ + labels_text(metric::label_views(labels@)),
{
    let ghost all = metric::label_views(labels@);
    if labels.len() == 0 {
        assert(out@ + seq![] =~= out@);
        return ;
    }
    let mut text = "{".to_owned();
    let mut i: usize = 0;
    assert("{"@ + label_texts(all, 0) =~= "{"@);
    while i < labels.len()
        invariant
            i <= labels@.len(),
            all == metric::label_views(labels@),
            text@ == "{"@ + label_texts(all, i as int),
        decreases labels@.len() - i,
    {
        let ghost done = label_texts(all, i as int);
        assert(all[i as int] == (labels@[i as int].0@, labels@[i as int].1@));
        if i > 0 {
            text.push(',');
        }
        text.push_str(labels[i].0.as_str());
        text.push_str("=\"");
        push_label_value(&mut text, labels[i].1.as_str());
        text.push_str("\"");
        proof {
            let l = all[i as int];
            if i > 0 {
                assert(("{"@ + done).push(',') + l.0 + "=\""@ + escaped_label(l.1) + "\""@
                    =~= "{"@ + (done.push(',') + label_text(l)));
            } else {
                assert("{"@ + done + l.0 + "=\""@ + escaped_label(l.1) + "\""@ =~= "{"@
                    + label_text(l));
            }
        }
        i = i + 1;
    }
    text.push_str("}");
    out.push_str(text.as_str());
}

// ----------------------------------------------------------------------- help

/// How a character of a help text is written.
pub open spec fn help_char(c: char) -> Seq<char> {
    if c == '\\' {
        "\\\\"@
    } else if c == '\n' {
        "\\n"@
    } else {
        seq![c]
    }
}

/// How a help text is written.
pub open spec fn escaped_help(s: Seq<char>) -> Seq<char>
    decreases s.len(),
{
    if s.len() == 0 {
        seq![]
    } else {
        escaped_help(s.drop_last()) + help_char(s.last())
    }
}

/// Escapes a help text.
pub fn escape_help(help: &str) -> (r: String)
    ensures
        r@ == escaped_help(help@),
{
    let mut out = String::new();
    assert(out@ =~= escaped_help(help@.take(0)));
    for c in it: help.chars()
        invariant
            it.seq() == help@,
            out@ == escaped_help(help@.take(it.index())),
    {
        proof {
            let i = it.index();
            assert(help@.take(i + 1).drop_last() =~= help@.take(i));
            assert(help@.take(i + 1).last() == c);
        }
        if c == '\\' {
            out.push_str("\\\\");
        } else if c == '\n' {
            out.push_str("\\n");
        } else {
            let ghost had = out@;
            out.push(c);
            assert(had.push(c) =~= had + seq![c]);
        }
    }
    assert(help@.take(help@.len() as int) =~= help@);
    out
}

// ------------------------------------------------------------------- families

/// The line of a sample, with its line feed.
pub open spec fn sample_text(name: Seq<char>, s: SampleView<DoubleView>) -> Seq<char> {
    name + labels_text(s.labels) + " "@ + value_text(s.value) + "\n"@
}

/// The lines of samples.
pub open spec fn sample_texts(name: Seq<char>, samples: Seq<SampleView<DoubleView>>) -> Seq<char>
    decreases samples.len(),
{
    if samples.len() == 0 {
        seq![]
    } else {
        sample_texts(name, samples.drop_last()) + sample_text(name, samples.last())
    }
}

/// The text of a family; nothing where it has no samples.
pub open spec fn family_text(m: MetricView<DoubleView>) -> Seq<char> {
    if m.samples.len() == 0 {
        seq![]
    } else {
        "# HELP "@ + m.name + " "@ + escaped_help(m.help) + "\n# TYPE "@ + m.name + " "@
            + m.mtype.word() + "\n"@ + sample_texts(m.name, m.samples)
    }
}

/// The text of families, one after the other.
pub open spec fn encoded(metrics: Seq<MetricView<DoubleView>>) -> Seq<char>
    decreases metrics.len(),
{
    if metrics.len() == 0 {
        seq![]
    } else {
        encoded(metrics.drop_last()) + family_text(metrics.last())
    }
}

fn write_sample(out: &mut String, name: &str, s: &Sample<Double>)
    ensures
        final(out)@ == old(out)@ + sample_text(name@, s@),
{
    let ghost before = out@;
    out.push_str(name);
    write_labels(out, &s.labels);
    out.push_str(" ");
    write_value(out, &s.value);
    out.push_str("\n");
    assert(out@ =~= before + sample_text(name@, s@));
}

fn write_family(out: &mut String, m: &Metric<Double>)
    ensures
        final(out)@ == old(out)@ + family_text(m@),
{
    if m.samples.len() == 0 {
        assert(out@ + seq![] =~= out@);
        return ;
    }
    let ghost before = out@;
    let ghost all = metric::sample_views(m.samples@);
    out.push_str("# HELP ");
    out.push_str(m.name.as_str());
    out.push_str(" ");
    out.push_str(escape_help(m.help.as_str()).as_str());
    out.push_str("\n# TYPE ");
    out.push_str(m.name.as_str());
    out.push_str(" ");
    out.push_str(m.mtype.as_str());
    out.push_str("\n");
    let ghost head = "# HELP "@ + m.name@ + " "@ + escaped_help(m.help@) + "\n# TYPE "@ + m.name@
        + " "@ + m.mtype.word() + "\n"@;
    assert(out@ =~= before + head);
    let mut i: usize = 0;
    assert(before + head + sample_texts(m.name@, all.take(0)) =~= before + head);
    while i < m.samples.len()
        invariant
            i <= m.samples@.len(),
            all == metric::sample_views(m.samples@),
            out@ == before + head + sample_texts(m.name@, all.take(i as int)),
        decreases m.samples@.len() - i,
    {
        proof {
            assert(all.take(i + 1).drop_last() =~= all.take(i as int));
            assert(all[i as int] == m.samples@[i as int]@);
            let done = sample_texts(m.name@, all.take(i as int));
            let one = sample_text(m.name@, all[i as int]);
            assert(before + head + done + one =~= before + head + (done + one));
        }
        write_sample(out, m.name.as_str(), &m.samples[i]);
        i = i + 1;
    }
    assert(all.take(all.len() as int) =~= all);
    assert(out@ =~= before + (head + sample_texts(m.name@, all)));
}

/// Encode a slice of metric families into the Prometheus text format.
pub fn encode(metrics: &[Metric<Double>]) -> (r: String)
    ensures
        r@ == encoded(metric::metric_views(metrics@)),
{
    let ghost all = metric::metric_views(metrics@);
    let mut out = String::new();
    let mut i: usize = 0;
    assert(out@ =~= seq![]);
    while i < metrics.len()
        invariant
            i <= metrics@.len(),
            all == metric::metric_views(metrics@),
            out@ == encoded(all.take(i as int)),
        decreases metrics@.len() - i,
    {
        proof {
            assert(all.take(i + 1).drop_last() =~= all.take(i as int));
            assert(all[i as int] == metrics@[i as int]@);
        }
        write_family(&mut out, &metrics[i]);
        i = i + 1;
    }
    assert(all.take(all.len() as int) =~= all);
    out
}

// ------------------------------------------------------------------------ laws

/// The text of families does not depend on what stands around them.
pub proof fn encoding_joins(a: Seq<MetricView<DoubleView>>, b: Seq<MetricView<DoubleView>>)
    ensures
        encoded(a + b) == encoded(a) + encoded(b),
    decreases b.len(),
{
    if b.len() == 0 {
        assert(a + b =~= a);
        assert(encoded(a) + seq![] =~= encoded(a));
    } else {
        encoding_joins(a, b.drop_last());
        assert((a + b).drop_last() =~= a + b.drop_last());
        assert((a + b).last() == b.last());
        let x = encoded(a);
        let y = encoded(b.drop_last());
        let z = family_text(b.last());
        assert(x + y + z =~= x + (y + z));
    }
}

/// A family without samples leaves no trace.
pub proof fn empty_families_are_skipped(metrics: Seq<MetricView<DoubleView>>, i: int)
    requires
        0 <= i < metrics.len(),
        metrics[i].samples.len() == 0,
    ensures
        encoded(metrics) == encoded(metrics.remove(i)),
{
    let a = metrics.take(i);
    let b = metrics.skip(i + 1);
    let one = seq![metrics[i]];
    assert(metrics =~= a + (one + b));
    assert(metrics.remove(i) =~= a + b);
    encoding_joins(a, one + b);
    encoding_joins(one, b);
    encoding_joins(a, b);
    assert(one.drop_last() =~= seq![]);
    assert(encoded(one.drop_last()) =~= seq![]);
    assert(encoded(one) =~= seq![]);
    assert(seq![] + encoded(b) =~= encoded(b));
}

/// A whole number of fewer than sixteen digits is written as its digits alone,
/// with a minus sign where it is negative.
pub proof fn whole_numbers_are_written_plain(v: DoubleView, n: int)
    requires
        !is_nan(v.bits) && !is_infinite(v.bits),
        whole_magnitude(v.bits) == Some(n),
        0 <= n < 1_000_000_000_000_000,
    ensures
        n > 0 ==> value_text(v) == (if is_negative(v.bits) {
            seq!['-']
        } else {
            seq![]
        }) + number::decimal(n as nat),
        n == 0 ==> value_text(v) == seq!['0'],
{
    if n > 0 && !is_negative(v.bits) {
        assert(Seq::<char>::empty() + number::decimal(n as nat) =~= number::decimal(n as nat));
    }
    if n == 0 {
        assert(number::decimal(0) =~= seq!['0']);
    }
}

/// All other numbers are written in the shortest form that reads back.
pub proof fn other_numbers_are_written_short(v: DoubleView)
    requires
        !is_nan(v.bits) && !is_infinite(v.bits),
        whole_magnitude(v.bits) is None || whole_magnitude(v.bits)->0 >= 1_000_000_000_000_000,
    ensures
        value_text(v) == v.shortest,
{
}

/// Labels are listed in braces, each as its name, an equals sign and its value in
/// quotes, with a comma between them and no blank. Without labels there are no
/// braces.
pub proof fn labels_are_listed(labels: Seq<LabelView>, last: LabelView)
    ensures
        labels_text(seq![]) == Seq::<char>::empty(),
        labels_text(labels.push(last)) == seq!['{'] + (if labels.len() > 0 {
            label_texts(labels, labels.len() as int) + seq![',']
        } else {
            seq![]
        }) + last.0 + seq!['=', '"'] + escaped_label(last.1) + seq!['"', '}'],
{
    reveal_strlit("{");
    reveal_strlit("}");
    reveal_strlit("=\"");
    reveal_strlit("\"");
    let more = labels.push(last);
    let n = labels.len() as int;
    lemma_label_texts_agree(labels, more, n);
    assert(more[n] == last);
    assert("{"@ =~= seq!['{'] && "}"@ =~= seq!['}'] && "=\""@ =~= seq!['=', '"'] && "\""@
        =~= seq!['"']);
    let head: Seq<char> = if n > 0 {
        label_texts(labels, n) + seq![',']
    } else {
        seq![]
    };
    if n > 0 {
        assert(label_texts(labels, n).push(',') =~= head);
    }
    assert(label_texts(more, n + 1) =~= head + label_text(last));
    assert(labels_text(more) =~= seq!['{'] + head + last.0 + seq!['=', '"'] + escaped_label(last.1)
        + seq!['"', '}']);
}

proof fn lemma_label_texts_agree(a: Seq<LabelView>, b: Seq<LabelView>, n: int)
    requires
        0 <= n <= a.len(),
        n <= b.len(),
        forall|i: int| 0 <= i < n ==> #[trigger] a[i] == b[i],
    ensures
        label_texts(a, n) == label_texts(b, n),
    decreases n,
{
    if n > 0 {
        lemma_label_texts_agree(a, b, n - 1);
        assert(a[n - 1] == b[n - 1]);
        assert(a[0] == b[0]);
    }
}

/// Values and help texts are written character by character: a backslash is
/// doubled, a line feed becomes `\n`, in a value a quote has a backslash before
/// it, and every other character stays.
pub proof fn texts_are_escaped_by_character(s: Seq<char>, c: char)
    ensures
        escaped_label(seq![]) == Seq::<char>::empty(),
        escaped_label(s.push(c)) == escaped_label(s) + (if c == '\\' || c == '"' {
            seq!['\\', c]
        } else if c == '\n' {
            seq!['\\', 'n']
        } else {
            seq![c]
        }),
        escaped_help(seq![]) == Seq::<char>::empty(),
        escaped_help(s.push(c)) == escaped_help(s) + (if c == '\\' {
            seq!['\\', c]
        } else if c == '\n' {
            seq!['\\', 'n']
        } else {
            seq![c]
        }),
{
    reveal_strlit("\\\\");
    reveal_strlit("\\\"");
    reveal_strlit("\\n");
    assert(s.push(c).drop_last() =~= s);
    assert("\\\\"@ =~= seq!['\\', '\\']);
    assert("\\\""@ =~= seq!['\\', '"']);
    assert("\\n"@ =~= seq!['\\', 'n']);
}

} // verus!
