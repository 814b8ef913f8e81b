//! What the encoder writes, the parser of text files reads back.

use vstd::prelude::*;

use crate::collectors::textfile;
use crate::double;
use crate::encoding;
use crate::metric;
use crate::metric::{DoubleView, LabelView, MetricType, MetricView, SampleView, ValueView};
use crate::number;
use crate::rows;
use crate::rows::Row;
use crate::text;

verus! {

// ------------------------------------------------------------------ escapes

proof fn lemma_help_front(s: Seq<char>)
    requires
        s.len() > 0,
    ensures
        encoding::escaped_help(s) == encoding::help_char(s[0]) + encoding::escaped_help(s.skip(1)),
    decreases s.len(),
{
    let front = s.drop_last();
    let h = encoding::help_char(s.last());
    if s.len() == 1 {
        assert(front =~= seq![]);
        assert(s.skip(1) =~= seq![]);
        assert(seq![] + h =~= h);
        assert(h + seq![] =~= h);
    } else {
        lemma_help_front(front);
        assert(front.skip(1) =~= s.skip(1).drop_last());
        let a = encoding::help_char(s[0]);
        let b = encoding::escaped_help(front.skip(1));
        assert(a + b + h =~= a + (b + h));
    }
}

/// A help text that is escaped and then decoded is as it was.
pub proof fn help_reads_back(help: Seq<char>)
    ensures
        textfile::unescaped(encoding::escaped_help(help)) == help,
    decreases help.len(),
{
    if help.len() > 0 {
        lemma_help_front(help);
        help_reads_back(help.skip(1));
        let c = help[0];
        let rest = encoding::escaped_help(help.skip(1));
        let whole = encoding::help_char(c) + rest;
        reveal_strlit("\\\\");
        reveal_strlit("\\n");
        if c == '\\' || c == '\n' {
            assert(whole[0] == '\\');
            assert(whole.skip(2) =~= rest);
        } else {
            assert(whole[0] == c);
            assert(whole.skip(1) =~= rest);
        }
        assert(seq![c] + help.skip(1) =~= help);
    }
}

proof fn lemma_label_front(s: Seq<char>)
    requires
        s.len() > 0,
    ensures
        encoding::escaped_label(s) == encoding::label_char(s[0]) + encoding::escaped_label(
            s.skip(1),
        ),
    decreases s.len(),
{
    let front = s.drop_last();
    let h = encoding::label_char(s.last());
    if s.len() == 1 {
        assert(front =~= seq![]);
        assert(s.skip(1) =~= seq![]);
        assert(seq![] + h =~= h);
        assert(h + seq![] =~= h);
    } else {
        lemma_label_front(front);
        assert(front.skip(1) =~= s.skip(1).drop_last());
        let a = encoding::label_char(s[0]);
        let b = encoding::escaped_label(front.skip(1));
        assert(a + b + h =~= a + (b + h));
    }
}

/// A label's value that is written between quotes is read back, whatever
/// follows the closing quote.
pub proof fn label_value_reads_back(value: Seq<char>, tail: Seq<char>)
    ensures
        textfile::quoted_text(encoding::escaped_label(value) + seq!['"'] + tail) == Some(
            (value, tail),
        ),
    decreases value.len(),
{
    let whole = encoding::escaped_label(value) + seq!['"'] + tail;
    if value.len() == 0 {
        assert(whole[0] == '"');
        assert(whole.skip(1) =~= tail);
        assert(value =~= seq![]);
    } else {
        lemma_label_front(value);
        label_value_reads_back(value.skip(1), tail);
        let c = value[0];
        let rest = encoding::escaped_label(value.skip(1)) + seq!['"'] + tail;
        reveal_strlit("\\\\");
        reveal_strlit("\\\"");
        reveal_strlit("\\n");
        assert(whole =~= encoding::label_char(c) + rest);
        if c == '\\' || c == '"' || c == '\n' {
            assert(whole[0] == '\\');
            assert(whole.skip(2) =~= rest);
            assert(textfile::label_escape(whole[1]) =~= seq![c]);
        } else {
            assert(whole[0] == c);
            assert(whole.skip(1) =~= rest);
        }
        assert(seq![c] + value.skip(1) =~= value);
    }
}

// ---------------------------------------------------------------- characters

/// Whether `c` is not in `s`.
pub open spec fn lacks(s: Seq<char>, c: char) -> bool {
    forall|i: int| 0 <= i < s.len() ==> #[trigger] s[i] != c
}

/// Whether no character of `s` is white space.
pub open spec fn is_solid(s: Seq<char>) -> bool {
    forall|i: int| 0 <= i < s.len() ==> !text::is_space(#[trigger] s[i])
}

/// Whether `s` neither starts nor ends with white space.
pub open spec fn is_trimmed(s: Seq<char>) -> bool {
    s.len() > 0 ==> !text::is_space(s[0]) && !text::is_space(s.last())
}

proof fn lemma_trim_start(s: Seq<char>)
    requires
        s.len() > 0 ==> !text::is_space(s[0]),
    ensures
        text::trim_start(s) == s,
{
    text::lemma_run(s, text::blank(), 0);
    assert(s.skip(0) =~= s);
}

proof fn lemma_trim(s: Seq<char>)
    requires
        is_trimmed(s),
    ensures
        text::trim(s) == s,
        text::trim_start(s) == s,
{
    lemma_trim_start(s);
}

// --------------------------------------------------------------------- labels

/// Whether a label can be read back: its name is not empty, is not padded with
/// white space, and has no `=`, no `}` and no line feed. Its value may be any
/// text.
pub open spec fn is_plain_label(l: LabelView) -> bool {
    &&& l.0.len() > 0
    &&& is_trimmed(l.0)
    &&& lacks(l.0, '=')
    &&& lacks(l.0, '}')
    &&& lacks(l.0, '\n')
}

/// Whether all labels can be read back.
pub open spec fn are_plain_labels(labels: Seq<LabelView>) -> bool {
    forall|i: int| 0 <= i < labels.len() ==> is_plain_label(#[trigger] labels[i])
}

proof fn lemma_label_texts_front(labels: Seq<LabelView>, n: int)
    requires
        2 <= n <= labels.len(),
    ensures
        encoding::label_texts(labels, n) == encoding::label_text(labels[0]) + seq![',']
            + encoding::label_texts(labels.skip(1), n - 1),
    decreases n,
{
    let first = encoding::label_text(labels[0]);
    let last = encoding::label_text(labels[n - 1]);
    assert(labels.skip(1)[n - 2] == labels[n - 1]);
    if n == 2 {
        assert(encoding::label_texts(labels, 1) == first);
        assert(encoding::label_texts(labels.skip(1), 1) == last);
        assert(first.push(',') + last =~= first + seq![','] + last);
    } else {
        lemma_label_texts_front(labels, n - 1);
        let mid = encoding::label_texts(labels.skip(1), n - 2);
        assert((first + seq![','] + mid).push(',') + last =~= first + seq![','] + (mid.push(',')
            + last));
    }
}

/// One label, and what follows it.
proof fn lemma_label_list_step(l: LabelView, rest: Seq<char>)
    requires
        is_plain_label(l),
        rest.len() > 0 ==> rest[0] == ',',
        rest.len() > 1 ==> !text::is_space(rest[1]),
    ensures
        textfile::label_list(encoding::label_text(l) + rest) == if rest.len() == 0 {
            Ok::<_, Seq<char>>(seq![l])
        } else {
            textfile::after_labels(seq![l], textfile::label_list(rest.skip(1)))
        },
{
    reveal_strlit("=\"");
    reveal_strlit("\"");
    let (key, value) = l;
    let whole = encoding::label_text(l) + rest;
    let eq = key.len() as int;
    let quoted = encoding::escaped_label(value) + seq!['"'] + rest;
    assert(whole =~= key + seq!['=', '"'] + quoted);
    assert forall|j: int| 0 <= j < eq implies text::other_than('=')(#[trigger] whole[j]) by {
        assert(whole[j] == key[j]);
    }
    text::lemma_run(whole, text::other_than('='), eq);
    assert(whole.take(eq) =~= key);
    lemma_trim(key);
    let after = seq!['"'] + quoted;
    assert(whole.skip(eq + 1) =~= after);
    lemma_trim_start(after);
    assert(after.skip(1) =~= quoted);
    label_value_reads_back(value, rest);
    lemma_trim_start(rest);
    if rest.len() > 0 {
        lemma_trim_start(rest.skip(1));
    }
}

proof fn lemma_label_texts_ends(labels: Seq<LabelView>, n: int)
    requires
        1 <= n <= labels.len(),
        are_plain_labels(labels),
    ensures
        encoding::label_texts(labels, n).len() > 0,
        encoding::label_texts(labels, n)[0] == labels[0].0[0],
        encoding::label_texts(labels, n).last() == '"',
    decreases n,
{
    reveal_strlit("\"");
    let last = encoding::label_text(labels[n - 1]);
    assert(is_plain_label(labels[n - 1]));
    assert(last.last() == '"');
    assert(last[0] == labels[n - 1].0[0]);
    if n > 1 {
        lemma_label_texts_ends(labels, n - 1);
        let whole = encoding::label_texts(labels, n);
        assert(whole.last() == last.last());
        assert(whole[0] == encoding::label_texts(labels, n - 1)[0]);
    }
}

proof fn lemma_label_list(labels: Seq<LabelView>)
    requires
        labels.len() > 0,
        are_plain_labels(labels),
    ensures
        textfile::label_list(encoding::label_texts(labels, labels.len() as int)) == Ok::<
            _,
            Seq<char>,
        >(labels),
    decreases labels.len(),
{
    let n = labels.len() as int;
    let first = labels[0];
    assert(is_plain_label(first));
    let whole = encoding::label_texts(labels, n);
    if n == 1 {
        lemma_label_list_step(first, seq![]);
        assert(encoding::label_text(first) + seq![] =~= whole);
        assert(labels =~= seq![first]);
    } else {
        let more = labels.skip(1);
        let rest = seq![','] + encoding::label_texts(more, n - 1);
        assert forall|i: int| 0 <= i < more.len() implies is_plain_label(#[trigger] more[i]) by {
            assert(more[i] == labels[i + 1]);
        }
        lemma_label_texts_front(labels, n);
        lemma_label_texts_ends(more, n - 1);
        assert(is_plain_label(more[0]));
        lemma_label_list_step(first, rest);
        lemma_label_list(more);
        assert(rest.skip(1) =~= encoding::label_texts(more, n - 1));
        assert(whole =~= encoding::label_text(first) + rest);
        assert(seq![first] + more =~= labels);
    }
}

proof fn lemma_escaped_lacks(value: Seq<char>)
    ensures
        lacks(encoding::escaped_label(value), '\n'),
    decreases value.len(),
{
    if value.len() > 0 {
        reveal_strlit("\\\\");
        reveal_strlit("\\\"");
        reveal_strlit("\\n");
        lemma_escaped_lacks(value.drop_last());
        assert(lacks(encoding::label_char(value.last()), '\n'));
    }
}

/// Whether no label has a line feed in its name.
pub open spec fn keys_are_lines(labels: Seq<LabelView>) -> bool {
    forall|i: int| 0 <= i < labels.len() ==> lacks((#[trigger] labels[i]).0, '\n')
}

proof fn lemma_label_texts_lack(labels: Seq<LabelView>, n: int)
    requires
        0 <= n <= labels.len(),
        keys_are_lines(labels),
    ensures
        lacks(encoding::label_texts(labels, n), '\n'),
    decreases n,
{
    if n > 0 {
        let l = labels[n - 1];
        reveal_strlit("=\"");
        reveal_strlit("\"");
        lemma_escaped_lacks(l.1);
        assert(lacks(l.0, '\n'));
        assert(lacks(encoding::label_text(l), '\n'));
        lemma_label_texts_lack(labels, n - 1);
    }
}

/// A label's value hides what is in it from the search for the closing brace.
proof fn lemma_block_step(key: Seq<char>, value: Seq<char>, rest: Seq<char>)
    requires
        lacks(key, '='),
        lacks(key, '}'),
    ensures
        textfile::block_end(key + "=\""@ + encoding::escaped_label(value) + "\""@ + rest)
            == key.len() + 3 + encoding::escaped_label(value).len() + textfile::block_end(rest),
{
    reveal_strlit("=\"");
    reveal_strlit("\"");
    let whole = key + "=\""@ + encoding::escaped_label(value) + "\""@ + rest;
    let eq = key.len() as int;
    let quoted = encoding::escaped_label(value) + seq!['"'] + rest;
    assert(whole =~= key + seq!['=', '"'] + quoted);
    assert forall|j: int| 0 <= j < eq implies text::other_than('=')(#[trigger] whole[j]) by {
        assert(whole[j] == key[j]);
    }
    text::lemma_run(whole, text::other_than('='), eq);
    text::lemma_run_meaning(whole, text::other_than('}'));
    let close = text::first_index(whole, '}');
    assert(close > eq) by {
        if close < eq {
            assert(whole[close] == key[close]);
        }
    }
    let after = seq!['"'] + quoted;
    assert(whole.skip(eq + 1) =~= after);
    lemma_trim_start(after);
    assert(after.skip(1) =~= quoted);
    label_value_reads_back(value, rest);
}

/// The closing brace of labels is found, whatever their values hold.
proof fn lemma_block_end(before: Seq<char>, labels: Seq<LabelView>, tail: Seq<char>)
    requires
        labels.len() > 0,
        are_plain_labels(labels),
        lacks(before, '='),
        lacks(before, '}'),
    ensures
        textfile::block_end(
            before + encoding::label_texts(labels, labels.len() as int) + seq!['}'] + tail,
        ) == before.len() + encoding::label_texts(labels, labels.len() as int).len(),
    decreases labels.len(),
{
    reveal_strlit("=\"");
    reveal_strlit("\"");
    let n = labels.len() as int;
    let first = labels[0];
    assert(is_plain_label(first));
    let whole = before + encoding::label_texts(labels, n) + seq!['}'] + tail;
    let key = before + first.0;
    let end = seq!['}'] + tail;
    if n == 1 {
        lemma_block_step(key, first.1, end);
        assert(whole =~= key + "=\""@ + encoding::escaped_label(first.1) + "\""@ + end);
        text::lemma_run(end, text::other_than('}'), 0);
        text::lemma_run_meaning(end, text::other_than('='));
    } else {
        let more = labels.skip(1);
        assert forall|i: int| 0 <= i < more.len() implies is_plain_label(#[trigger] more[i]) by {
            assert(more[i] == labels[i + 1]);
        }
        lemma_label_texts_front(labels, n);
        let rest = seq![','] + encoding::label_texts(more, n - 1) + seq!['}'] + tail;
        lemma_block_step(key, first.1, rest);
        assert(whole =~= key + "=\""@ + encoding::escaped_label(first.1) + "\""@ + rest);
        lemma_block_end(seq![','], more, tail);
    }
}

/// The labels of a sample are read back.
pub proof fn labels_read_back(labels: Seq<LabelView>)
    requires
        are_plain_labels(labels),
        labels.len() > 0,
    ensures
        textfile::labels_of(encoding::label_texts(labels, labels.len() as int)) == Ok::<
            _,
            Seq<char>,
        >(labels),
{
    lemma_label_texts_ends(labels, labels.len() as int);
    assert(is_plain_label(labels[0]));
    lemma_trim(encoding::label_texts(labels, labels.len() as int));
    lemma_label_list(labels);
}

// -------------------------------------------------------------------- samples

/// Whether a metric's name can be read back: it is not empty, has no white
/// space and no `{`, and does not start like a comment.
pub open spec fn is_plain_name(name: Seq<char>) -> bool {
    &&& name.len() > 0
    &&& is_solid(name)
    &&& lacks(name, '{')
    &&& name[0] != '#'
}

/// Whether a sample can be read back.
pub open spec fn is_plain_sample(s: SampleView<DoubleView>) -> bool {
    are_plain_labels(s.labels) && double::is_faithful(s.value)
}

/// What a sample is read back as: the same labels, and the number that the
/// text of its value spells.
pub open spec fn sample_back(s: SampleView<DoubleView>) -> SampleView<ValueView> {
    SampleView {
        labels: s.labels,
        value: textfile::value_of(encoding::value_text(s.value))->Ok_0,
    }
}

/// The line of a sample.
pub open spec fn sample_line(name: Seq<char>, s: SampleView<DoubleView>) -> Seq<char> {
    name + encoding::labels_text(s.labels) + " "@ + encoding::value_text(s.value)
}

proof fn lemma_one_word(word: Seq<char>)
    requires
        word.len() > 0,
        is_solid(word),
    ensures
        text::words(word) == seq![word],
        text::words(seq![' '] + word) == seq![word],
        textfile::after_spaces(seq![' '] + word) == word,
{
    let rest = seq![' '] + word;
    assert forall|j: int| 0 <= j < word.len() implies text::word_char()(#[trigger] word[j]) by {
        assert(!text::is_space(word[j]));
    }
    assert(!text::is_space(word[0]));
    assert(!text::is_ascii_space(word[0]));
    text::lemma_run(rest, text::separator(), 1);
    text::lemma_run(word, text::separator(), 0);
    assert(rest.skip(1) =~= word);
    assert(word.skip(0) =~= word);
    text::lemma_run(word, text::word_char(), word.len() as int);
    assert(word.take(word.len() as int) =~= word);
    assert(word.skip(word.len() as int) =~= seq![]);
    text::lemma_run(seq![], text::separator(), 0);
    assert(seq![].skip(0) =~= Seq::<char>::empty());
    assert(text::words(seq![]) =~= seq![]);
    assert(text::words(word) =~= seq![word]);
    assert(text::words(rest) =~= seq![word]);
}

/// The line of a sample is read back: its name, its labels and its value, which
/// is the double that was written.
#[verifier::rlimit(60)]
pub proof fn sample_reads_back(name: Seq<char>, s: SampleView<DoubleView>)
    requires
        is_plain_name(name),
        is_plain_sample(s),
    ensures
        textfile::sample_of(text::trim(sample_line(name, s))) == Ok::<_, Seq<char>>(
            (name, sample_back(s)),
        ),
        double::is_reading_of(sample_back(s).value, s.value.bits),
        text::trim(sample_line(name, s)) == sample_line(name, s),
        sample_line(name, s)[0] == name[0],
{
    values_read_back(s.value);
    reveal_strlit(" ");
    reveal_strlit("{");
    reveal_strlit("}");
    let line = sample_line(name, s);
    let word = encoding::value_text(s.value);
    let tail = seq![' '] + word;
    let n = name.len() as int;
    assert(line[0] == name[0]);
    assert(line.last() == word.last());
    lemma_trim(line);
    lemma_one_word(word);
    assert forall|j: int| 0 <= j < n implies textfile::name_char()(#[trigger] line[j]) by {
        assert(line[j] == name[j]);
        assert(!text::is_space(name[j]));
    }
    let after = encoding::labels_text(s.labels) + tail;
    assert(line =~= name + after);
    assert(line[n] == after[0]);
    if s.labels.len() == 0 {
        assert(s.labels =~= seq![]);
        assert(after =~= tail);
        text::lemma_run(line, textfile::name_char(), n);
        assert(line.skip(n) =~= tail);
    } else {
        let inner = encoding::label_texts(s.labels, s.labels.len() as int);
        let body = inner + seq!['}'] + tail;
        assert(after =~= seq!['{'] + body);
        text::lemma_run(line, textfile::name_char(), n);
        assert(line.skip(n) =~= after);
        text::lemma_run(after, text::separator(), 0);
        assert(after.skip(0) =~= after);
        assert(after.skip(1) =~= body);
        lemma_block_end(seq![], s.labels, tail);
        assert(seq![] + inner + seq!['}'] + tail =~= body);
        assert(body.take(inner.len() as int) =~= inner);
        assert(body.skip(inner.len() as int + 1) =~= tail);
        labels_read_back(s.labels);
    }
    assert(line.take(n) =~= name);
}

// --------------------------------------------------------------------- values

/// The characters of floating-point literals.
pub open spec fn is_literal_char(c: char) -> bool {
    text::is_digit(c) || 'a' <= c <= 'z' || 'A' <= c <= 'Z' || c == '+' || c == '-' || c == '.'
}

/// Whether `s` is made up of such characters.
pub open spec fn is_literal_text(s: Seq<char>) -> bool {
    forall|i: int| 0 <= i < s.len() ==> is_literal_char(#[trigger] s[i])
}

proof fn lemma_mantissa_text(s: Seq<char>)
    requires
        number::is_mantissa(s),
    ensures
        s.len() > 0,
        is_literal_text(s),
        text::is_digit(s[0]) || s[0] == '.',
{
    let dot = text::first_index(s, '.');
    text::lemma_run_meaning(s, text::other_than('.'));
    assert forall|i: int| 0 <= i < s.len() implies is_literal_char(#[trigger] s[i]) && (i == 0
        ==> text::is_digit(s[i]) || s[i] == '.') by {
        if dot < s.len() {
            if i < dot {
                assert(s[i] == s.take(dot)[i]);
            } else if i > dot {
                assert(s[i] == s.skip(dot + 1)[i - dot - 1]);
            } else {
                assert(!text::other_than('.')(s[dot]));
            }
        }
    }
    assert(s[0] == s[0]);
}

proof fn lemma_decimal_starts(s: Seq<char>)
    requires
        number::is_decimal(s),
    ensures
        s.len() > 0,
        text::is_digit(s[0]) || s[0] == '.',
{
    let e = text::first_index(number::lower(s), 'e');
    text::lemma_run_meaning(number::lower(s), text::other_than('e'));
    if e >= s.len() {
        lemma_mantissa_text(s);
    } else {
        lemma_mantissa_text(s.take(e));
        assert(s[0] == s.take(e)[0]);
    }
}

proof fn lemma_word_text(s: Seq<char>, word: Seq<char>)
    requires
        number::lower(s) == word,
        forall|i: int| 0 <= i < word.len() ==> 'a' <= #[trigger] word[i] <= 'z',
        word.len() > 0,
    ensures
        s.len() > 0,
        is_literal_text(s),
{
    assert forall|i: int| 0 <= i < s.len() implies is_literal_char(#[trigger] s[i]) by {
        assert(number::lower(s)[i] == number::ascii_lower(s[i]));
        assert('a' <= word[i] <= 'z');
    }
}

proof fn lemma_literal_text(s: Seq<char>)
    requires
        number::is_float(s),
    ensures
        s.len() > 0,
        is_literal_text(s),
{
    let t = number::unsigned_part(s);
    reveal_strlit("inf");
    reveal_strlit("infinity");
    reveal_strlit("nan");
    if number::lower(t) == "inf"@ {
        lemma_word_text(t, "inf"@);
    } else if number::lower(t) == "infinity"@ {
        lemma_word_text(t, "infinity"@);
    } else if number::lower(t) == "nan"@ {
        lemma_word_text(t, "nan"@);
    } else {
        let e = text::first_index(number::lower(t), 'e');
        text::lemma_run_meaning(number::lower(t), text::other_than('e'));
        if e >= t.len() {
            lemma_mantissa_text(t);
        } else {
            lemma_mantissa_text(t.take(e));
            let exponent = t.skip(e + 1);
            let digits = number::unsigned_part(exponent);
            assert forall|i: int| 0 <= i < t.len() implies is_literal_char(#[trigger] t[i]) by {
                if i < e {
                    assert(t[i] == t.take(e)[i]);
                } else if i == e {
                    assert(!text::other_than('e')(number::lower(t)[e]));
                    assert(number::lower(t)[e] == number::ascii_lower(t[e]));
                } else {
                    let k = i - e - 1;
                    assert(t[i] == exponent[k]);
                    if digits.len() < exponent.len() {
                        if k > 0 {
                            assert(exponent[k] == digits[k - 1]);
                        }
                    } else {
                        assert(exponent[k] == digits[k]);
                    }
                }
            }
        }
    }
    assert forall|i: int| 0 <= i < s.len() implies is_literal_char(#[trigger] s[i]) by {
        if t.len() < s.len() {
            if i > 0 {
                assert(s[i] == t[i - 1]);
            }
        } else {
            assert(s[i] == t[i]);
        }
    }
}

/// A value that is written is read back as the double that it was. What is no
/// finite number is written as a word, and a whole number without a point.
#[verifier::rlimit(60)]
pub proof fn values_read_back(v: DoubleView)
    requires
        double::is_faithful(v),
    ensures
        textfile::value_of(encoding::value_text(v)) is Ok,
        double::is_reading_of(textfile::value_of(encoding::value_text(v))->Ok_0, v.bits),
        encoding::value_text(v).len() > 0,
        is_literal_text(encoding::value_text(v)),
        is_solid(encoding::value_text(v)),
        encoding::is_nan(v.bits) ==> encoding::value_text(v) == "NaN"@,
        encoding::is_infinite(v.bits) ==> encoding::value_text(v) == if encoding::is_negative(
            v.bits,
        ) {
            "-Inf"@
        } else {
            "+Inf"@
        },
        double::is_finite(v.bits) && encoding::whole_magnitude(v.bits) is Some
            ==> !encoding::value_text(v).contains('.'),
{
    let word = encoding::value_text(v);
    reveal_strlit("NaN");
    reveal_strlit("nan");
    reveal_strlit("-Inf");
    reveal_strlit("-inf");
    reveal_strlit("+Inf");
    reveal_strlit("Inf");
    reveal_strlit("inf");
    if !double::is_finite(v.bits) {
        assert("NaN"@.len() == 3 && "+Inf"@.len() == 4 && "-Inf"@.len() == 4);
        assert("-Inf"@[0] == '-' && "+Inf"@[0] == '+');
        assert("nan"@.len() == 3 && "Inf"@.len() == 3 && "inf"@.len() == 3 && "-inf"@.len() == 4);
    } else {
        match encoding::whole_magnitude(v.bits) {
            Some(n) => {
                if n < encoding::WHOLE_LIMIT {
                    double::whole_numbers_read_back(v.bits);
                }
            },
            None => {},
        }
        assert(double::spells(word, v.bits) && number::is_float(word));
        lemma_literal_text(word);
        let t = number::unsigned_part(word);
        lemma_decimal_starts(t);
        assert(number::unsigned_part("NaN"@)[0] == 'N');
        assert(number::unsigned_part("nan"@)[0] == 'n');
        assert(number::unsigned_part("+Inf"@)[0] == 'I');
        assert(number::unsigned_part("Inf"@)[0] == 'I');
        assert(number::unsigned_part("inf"@)[0] == 'i');
        assert(number::unsigned_part("-Inf"@)[0] == 'I');
        assert(number::unsigned_part("-inf"@)[0] == 'i');
    }
    assert forall|i: int| 0 <= i < word.len() implies !text::is_space(#[trigger] word[i]) by {
        assert(is_literal_char(word[i]));
    }
}

// ---------------------------------------------------------------------- lines

/// Lines, each with a line feed behind it.
pub open spec fn terminated(lines: Seq<Seq<char>>) -> Seq<char>
    decreases lines.len(),
{
    if lines.len() == 0 {
        seq![]
    } else {
        terminated(lines.drop_last()) + lines.last().push('\n')
    }
}

/// Whether `s` is a line: it has no line feed and does not end in a carriage
/// return.
pub open spec fn is_line(s: Seq<char>) -> bool {
    lacks(s, '\n') && (s.len() > 0 ==> s.last() != '\r')
}

pub open spec fn are_lines(lines: Seq<Seq<char>>) -> bool {
    forall|i: int| 0 <= i < lines.len() ==> is_line(#[trigger] lines[i])
}

proof fn lemma_terminated_joins(a: Seq<Seq<char>>, b: Seq<Seq<char>>)
    ensures
        terminated(a + b) == terminated(a) + terminated(b),
    decreases b.len(),
{
    if b.len() == 0 {
        assert(a + b =~= a);
        assert(terminated(a) + seq![] =~= terminated(a));
    } else {
        lemma_terminated_joins(a, b.drop_last());
        assert((a + b).drop_last() =~= a + b.drop_last());
        assert((a + b).last() == b.last());
        let x = terminated(a);
        let y = terminated(b.drop_last());
        let z = b.last().push('\n');
        assert(x + y + z =~= x + (y + z));
    }
}

proof fn lemma_terminated_one(line: Seq<char>)
    ensures
        terminated(seq![line]) == line.push('\n'),
{
    let lines = seq![line];
    assert(lines.drop_last() =~= seq![]);
    assert(terminated(lines.drop_last()) =~= seq![]);
    assert(seq![] + line.push('\n') =~= line.push('\n'));
}

proof fn lemma_split_terminated(lines: Seq<Seq<char>>)
    requires
        forall|i: int| 0 <= i < lines.len() ==> lacks(#[trigger] lines[i], '\n'),
    ensures
        text::split(terminated(lines), '\n') == lines.push(seq![]),
    decreases lines.len(),
{
    let whole = terminated(lines);
    if lines.len() == 0 {
        text::lemma_run(whole, text::other_than('\n'), 0);
        assert(lines.push(seq![]) =~= seq![seq![]]);
        assert(whole =~= seq![]);
    } else {
        let first = lines[0];
        let rest = lines.skip(1);
        assert(lacks(first, '\n'));
        assert forall|i: int| 0 <= i < rest.len() implies lacks(#[trigger] rest[i], '\n') by {
            assert(rest[i] == lines[i + 1]);
        }
        assert(lines =~= seq![first] + rest);
        lemma_terminated_joins(seq![first], rest);
        lemma_terminated_one(first);
        lemma_split_terminated(rest);
        let n = first.len() as int;
        assert forall|j: int| 0 <= j < n implies text::other_than('\n')(#[trigger] whole[j]) by {
            assert(whole[j] == first[j]);
        }
        assert(whole[n] == '\n');
        text::lemma_run(whole, text::other_than('\n'), n);
        assert(whole.take(n) =~= first);
        assert(whole.skip(n + 1) =~= terminated(rest));
        assert(seq![first] + rest.push(seq![]) =~= lines.push(seq![]));
    }
}

/// Lines with line feeds behind them come apart again.
pub proof fn lines_come_apart(lines: Seq<Seq<char>>)
    requires
        are_lines(lines),
    ensures
        text::lines(terminated(lines)) == lines,
{
    assert forall|i: int| 0 <= i < lines.len() implies lacks(#[trigger] lines[i], '\n') by {
        assert(is_line(lines[i]));
    }
    lemma_split_terminated(lines);
    let pieces = lines.push(seq![]);
    assert(pieces.last() =~= seq![]);
    assert forall|i: int| 0 <= i < lines.len() implies text::without_cr(pieces[i]) == lines[i] by {
        assert(is_line(lines[i]));
    }
    assert(text::lines(terminated(lines)) =~= lines);
}

// ----------------------------------------------------------------- directives

/// The help line of a family.
pub open spec fn help_line(name: Seq<char>, help: Seq<char>) -> Seq<char> {
    "# HELP "@ + name + " "@ + encoding::escaped_help(help)
}

/// The type line of a family.
pub open spec fn type_line(name: Seq<char>, mtype: MetricType) -> Seq<char> {
    "# TYPE "@ + name + " "@ + mtype.word()
}

proof fn lemma_escaped_help_ends(help: Seq<char>)
    requires
        is_trimmed(help),
    ensures
        is_trimmed(encoding::escaped_help(help)),
        lacks(encoding::escaped_help(help), '\n'),
        encoding::escaped_help(help).len() == 0 <==> help.len() == 0,
{
    lemma_help_lacks(help);
    if help.len() > 0 {
        lemma_help_front(help);
        reveal_strlit("\\\\");
        reveal_strlit("\\n");
        let s = encoding::escaped_help(help);
        let last = encoding::help_char(help.last());
        assert(s.last() == last.last());
        assert(s[0] == encoding::help_char(help[0])[0]);
    }
}

proof fn lemma_help_lacks(help: Seq<char>)
    ensures
        lacks(encoding::escaped_help(help), '\n'),
    decreases help.len(),
{
    if help.len() > 0 {
        reveal_strlit("\\\\");
        reveal_strlit("\\n");
        lemma_help_lacks(help.drop_last());
        assert(lacks(encoding::help_char(help.last()), '\n'));
    }
}

/// A word, a space and more come apart again.
proof fn lemma_split_once(name: Seq<char>, more: Seq<char>)
    requires
        is_plain_name(name),
        more.len() > 0,
        !text::is_space(more[0]),
    ensures
        textfile::split_once(name + seq![' '] + more) == Some((name, more)),
{
    let s = name + seq![' '] + more;
    let n = name.len() as int;
    assert(!text::is_space(name[0]));
    assert(s[0] == name[0]);
    lemma_trim_start(s);
    assert forall|j: int| 0 <= j < n implies text::word_char()(#[trigger] s[j]) by {
        assert(s[j] == name[j]);
        assert(!text::is_space(name[j]));
    }
    assert(s[n] == ' ');
    text::lemma_run(s, text::word_char(), n);
    assert(s.take(n) =~= name);
    let rest = s.skip(n);
    assert(rest =~= seq![' '] + more);
    text::lemma_run(rest, text::blank(), 1);
    assert(rest.skip(1) =~= more);
}

proof fn lemma_no_second_word(name: Seq<char>)
    requires
        is_plain_name(name),
    ensures
        textfile::split_once(name) is None,
{
    assert(!text::is_space(name[0]));
    lemma_trim_start(name);
    assert forall|j: int| 0 <= j < name.len() implies text::word_char()(#[trigger] name[j]) by {
        assert(!text::is_space(name[j]));
    }
    text::lemma_run(name, text::word_char(), name.len() as int);
}

/// The help line of a family is read back.
pub proof fn help_line_reads_back(i: int, name: Seq<char>, help: Seq<char>)
    requires
        is_plain_name(name),
        is_trimmed(help),
    ensures
        textfile::exposition_row(i, help_line(name, help)) == Row::Keep(
            textfile::LineView::Help(name, help),
        ),
{
    reveal_strlit("# HELP ");
    reveal_strlit("HELP");
    reveal_strlit(" ");
    let line = help_line(name, help);
    let escaped = encoding::escaped_help(help);
    lemma_escaped_help_ends(help);
    help_reads_back(help);
    assert(!text::is_space(name[0]));
    assert(!text::is_space(name.last()));
    assert(line[0] == '#');
    if help.len() > 0 {
        let payload = name + seq![' '] + escaped;
        assert(line =~= seq!['#', ' '] + "HELP"@ + seq![' '] + payload);
        assert(line.last() == escaped.last());
        lemma_trim(line);
        assert(line.skip(1) =~= seq![' '] + ("HELP"@ + seq![' '] + payload));
        lemma_directive_word("HELP"@, payload);
        lemma_split_once(name, escaped);
    } else {
        let shorter = seq!['#', ' '] + "HELP"@ + seq![' '] + name;
        assert(line =~= shorter.push(' '));
        lemma_trim(shorter);
        lemma_trim_start(line);
        assert(line.drop_last() =~= shorter);
        assert(text::trim(line) == shorter);
        assert(shorter.skip(1) =~= seq![' '] + ("HELP"@ + seq![' '] + name));
        lemma_directive_word("HELP"@, name);
        lemma_no_second_word(name);
        assert(help =~= seq![]);
    }
}

/// The word of a directive comes apart from what follows it.
proof fn lemma_directive_word(word: Seq<char>, payload: Seq<char>)
    requires
        is_plain_name(word),
        payload.len() > 0,
        !text::is_space(payload[0]),
    ensures
        textfile::split_once(seq![' '] + (word + seq![' '] + payload)) == Some((word, payload)),
{
    let s = word + seq![' '] + payload;
    lemma_split_once(word, payload);
    assert(!text::is_space(word[0]));
    assert(s[0] == word[0]);
    lemma_one_space(s);
    lemma_trim_start(s);
}

proof fn lemma_one_space(t: Seq<char>)
    requires
        t.len() > 0,
        !text::is_space(t[0]),
    ensures
        text::trim_start(seq![' '] + t) == t,
{
    let s = seq![' '] + t;
    text::lemma_run(s, text::blank(), 1);
    assert(s.skip(1) =~= t);
}

/// The type line of a family is read back.
pub proof fn type_line_reads_back(i: int, name: Seq<char>, mtype: MetricType)
    requires
        is_plain_name(name),
    ensures
        textfile::exposition_row(i, type_line(name, mtype)) == Row::Keep(
            textfile::LineView::Type(name, mtype),
        ),
{
    reveal_strlit("# TYPE ");
    reveal_strlit("TYPE");
    reveal_strlit("HELP");
    reveal_strlit(" ");
    reveal_strlit("counter");
    reveal_strlit("gauge");
    reveal_strlit("untyped");
    let line = type_line(name, mtype);
    let word = mtype.word();
    let payload = name + seq![' '] + word;
    assert(line =~= seq!['#', ' '] + "TYPE"@ + seq![' '] + payload);
    assert(line.last() == word.last());
    lemma_trim(line);
    assert(line.skip(1) =~= seq![' '] + ("TYPE"@ + seq![' '] + payload));
    assert(!text::is_space(name[0]));
    lemma_directive_word("TYPE"@, payload);
    assert("TYPE"@[0] == 'T' && "HELP"@[0] == 'H');
    lemma_split_once(name, word);
    lemma_trim(word);
    assert("counter"@.len() == 7 && "gauge"@.len() == 5 && "untyped"@.len() == 7);
    assert("counter"@[0] != "untyped"@[0]);
}

/// The line of a sample is a row of the file that it is in.
proof fn lemma_sample_row(i: int, name: Seq<char>, s: SampleView<DoubleView>)
    requires
        is_plain_name(name),
        is_plain_sample(s),
    ensures
        textfile::exposition_row(i, sample_line(name, s)) == Row::Keep(
            textfile::LineView::Sample(name, sample_back(s)),
        ),
{
    sample_reads_back(name, s);
}

// ------------------------------------------------------------------- families

/// Whether a family can be read back.
pub open spec fn is_plain_family(m: MetricView<DoubleView>) -> bool {
    &&& is_plain_name(m.name)
    &&& is_trimmed(m.help)
    &&& forall|i: int| 0 <= i < m.samples.len() ==> is_plain_sample(#[trigger] m.samples[i])
}

/// What a family is read back as.
pub open spec fn family_back(m: MetricView<DoubleView>) -> MetricView<ValueView> {
    MetricView {
        name: m.name,
        help: m.help,
        mtype: m.mtype,
        samples: Seq::new(m.samples.len(), |i: int| sample_back(m.samples[i])),
    }
}

/// The lines of a family; none where it has no samples.
pub open spec fn family_lines(m: MetricView<DoubleView>) -> Seq<Seq<char>> {
    if m.samples.len() == 0 {
        seq![]
    } else {
        seq![help_line(m.name, m.help), type_line(m.name, m.mtype)] + Seq::new(
            m.samples.len(),
            |i: int| sample_line(m.name, m.samples[i]),
        )
    }
}

/// What the lines of a family say.
pub open spec fn family_says(m: MetricView<DoubleView>) -> Seq<textfile::LineView> {
    if m.samples.len() == 0 {
        seq![]
    } else {
        seq![
            textfile::LineView::Help(m.name, m.help),
            textfile::LineView::Type(m.name, m.mtype),
        ] + Seq::new(
            m.samples.len(),
            |i: int| textfile::LineView::Sample(m.name, sample_back(m.samples[i])),
        )
    }
}

proof fn lemma_sample_texts(name: Seq<char>, samples: Seq<SampleView<DoubleView>>)
    ensures
        encoding::sample_texts(name, samples) == terminated(
            Seq::new(samples.len(), |i: int| sample_line(name, samples[i])),
        ),
    decreases samples.len(),
{
    let lines = Seq::new(samples.len(), |i: int| sample_line(name, samples[i]));
    if samples.len() > 0 {
        let front = samples.drop_last();
        lemma_sample_texts(name, front);
        assert(lines.drop_last() =~= Seq::new(front.len(), |i: int| sample_line(name, front[i])));
        reveal_strlit("\n");
        assert(encoding::sample_text(name, samples.last()) =~= lines.last().push('\n'));
    }
}

/// The text of a family is its lines.
pub proof fn family_text_is_its_lines(m: MetricView<DoubleView>)
    ensures
        encoding::family_text(m) == terminated(family_lines(m)),
{
    if m.samples.len() > 0 {
        lemma_sample_texts(m.name, m.samples);
        let lines = Seq::new(m.samples.len(), |i: int| sample_line(m.name, m.samples[i]));
        let help = help_line(m.name, m.help);
        let kind = type_line(m.name, m.mtype);
        lemma_terminated_joins(seq![help, kind], lines);
        lemma_terminated_joins(seq![help], seq![kind]);
        lemma_terminated_one(help);
        lemma_terminated_one(kind);
        assert(seq![help] + seq![kind] =~= seq![help, kind]);
        reveal_strlit("\n# TYPE ");
        reveal_strlit("# TYPE ");
        reveal_strlit("\n");
        assert("\n# TYPE "@ =~= seq!['\n'] + "# TYPE "@);
        assert(encoding::family_text(m) =~= help.push('\n') + kind.push('\n')
            + encoding::sample_texts(m.name, m.samples));
    }
}

proof fn lemma_solid_lacks(s: Seq<char>)
    requires
        is_solid(s),
    ensures
        lacks(s, '\n'),
        lacks(s, '\r'),
{
    assert forall|i: int| 0 <= i < s.len() implies #[trigger] s[i] != '\n' by {
        assert(!text::is_space(s[i]));
    }
    assert forall|i: int| 0 <= i < s.len() implies #[trigger] s[i] != '\r' by {
        assert(!text::is_space(s[i]));
    }
}

proof fn lemma_help_line_lacks(name: Seq<char>, help: Seq<char>)
    requires
        lacks(name, '\n'),
    ensures
        lacks(help_line(name, help), '\n'),
{
    reveal_strlit("# HELP ");
    reveal_strlit(" ");
    lemma_help_lacks(help);
    assert("# HELP "@ =~= seq!['#', ' ', 'H', 'E', 'L', 'P', ' ']);
    assert(lacks("# HELP "@, '\n'));
    lemma_lacks_joined("# HELP "@, name, '\n');
    lemma_lacks_joined("# HELP "@ + name, " "@, '\n');
    lemma_lacks_joined("# HELP "@ + name + " "@, encoding::escaped_help(help), '\n');
}

proof fn lemma_help_is_line(name: Seq<char>, help: Seq<char>)
    requires
        is_plain_name(name),
        is_trimmed(help),
    ensures
        is_line(help_line(name, help)),
{
    reveal_strlit(" ");
    lemma_solid_lacks(name);
    lemma_escaped_help_ends(help);
    lemma_help_line_lacks(name, help);
    let line = help_line(name, help);
    let escaped = encoding::escaped_help(help);
    if escaped.len() > 0 {
        assert(line.last() == escaped.last());
    } else {
        assert(line.last() == ' ');
    }
}

proof fn lemma_lacks_joined(a: Seq<char>, b: Seq<char>, c: char)
    requires
        lacks(a, c),
        lacks(b, c),
    ensures
        lacks(a + b, c),
{
}

proof fn lemma_type_line_lacks(name: Seq<char>, mtype: MetricType)
    requires
        lacks(name, '\n'),
    ensures
        lacks(type_line(name, mtype), '\n'),
        type_line(name, mtype).last() != '\r',
{
    reveal_strlit("# TYPE ");
    reveal_strlit(" ");
    reveal_strlit("counter");
    reveal_strlit("gauge");
    reveal_strlit("untyped");
    let word = mtype.word();
    assert(type_line(name, mtype).last() == word.last());
    assert(lacks(word, '\n'));
    assert(lacks("# TYPE "@, '\n'));
    lemma_lacks_joined("# TYPE "@, name, '\n');
    lemma_lacks_joined("# TYPE "@ + name, " "@, '\n');
    lemma_lacks_joined("# TYPE "@ + name + " "@, word, '\n');
}

proof fn lemma_sample_line_lacks(name: Seq<char>, s: SampleView<DoubleView>)
    requires
        lacks(name, '\n'),
        keys_are_lines(s.labels),
        double::is_faithful(s.value),
    ensures
        lacks(sample_line(name, s), '\n'),
        sample_line(name, s).last() != '\r',
{
    reveal_strlit(" ");
    reveal_strlit("{");
    reveal_strlit("}");
    let inner = encoding::label_texts(s.labels, s.labels.len() as int);
    let labels = encoding::labels_text(s.labels);
    let word = encoding::value_text(s.value);
    lemma_label_texts_lack(s.labels, s.labels.len() as int);
    if s.labels.len() > 0 {
        lemma_lacks_joined("{"@, inner, '\n');
        lemma_lacks_joined("{"@ + inner, "}"@, '\n');
    }
    values_read_back(s.value);
    lemma_solid_lacks(word);
    assert(sample_line(name, s).last() == word.last());
    assert(!text::is_space(word.last()));
    lemma_lacks_joined(name, labels, '\n');
    lemma_lacks_joined(name + labels, " "@, '\n');
    lemma_lacks_joined(name + labels + " "@, word, '\n');
}

proof fn lemma_family_lines(m: MetricView<DoubleView>, i: int, k: int)
    requires
        is_plain_family(m),
        0 <= k < family_lines(m).len(),
    ensures
        family_says(m).len() == family_lines(m).len(),
        is_line(family_lines(m)[k]),
        textfile::exposition_row(i, family_lines(m)[k]) == Row::Keep(family_says(m)[k]),
{
    if k == 0 {
        help_line_reads_back(i, m.name, m.help);
        lemma_help_is_line(m.name, m.help);
    } else if k == 1 {
        type_line_reads_back(i, m.name, m.mtype);
        lemma_solid_lacks(m.name);
        lemma_type_line_lacks(m.name, m.mtype);
    } else {
        let s = m.samples[k - 2];
        assert(is_plain_sample(s));
        assert(family_lines(m)[k] == sample_line(m.name, s));
        lemma_sample_row(i, m.name, s);
        lemma_solid_lacks(m.name);
        assert forall|j: int| 0 <= j < s.labels.len() implies lacks(
            (#[trigger] s.labels[j]).0,
            '\n',
        ) by {
            assert(is_plain_label(s.labels[j]));
        }
        lemma_sample_line_lacks(m.name, s);
    }
}

proof fn lemma_family_appears(before: Seq<textfile::LineView>, m: MetricView<DoubleView>, k: int)
    requires
        m.samples.len() > 0,
        0 <= k <= m.samples.len(),
        forall|j: int|
            0 <= j < textfile::families_of(before).len() ==> (#[trigger] textfile::families_of(
                before,
            )[j]).name != m.name,
    ensures
        textfile::families_of(before + family_says(m).take(2 + k)) == textfile::families_of(
            before,
        ).push(family_back(m).with_samples(family_back(m).samples.take(k))),
    decreases k,
{
    let fs = textfile::families_of(before);
    let says = family_says(m);
    let n = fs.len() as int;
    let back = family_back(m);
    if k == 0 {
        let none = before + says.take(0);
        let one = before + says.take(1);
        let two = before + says.take(2);
        assert(none =~= before);
        assert(one.drop_last() =~= none);
        assert(one.last() == says[0]);
        assert(two.drop_last() =~= one);
        assert(two.last() == says[1]);
        let fresh = MetricView::<ValueView>::new(m.name, seq![], MetricType::Untyped);
        metric::lemma_family_index(fs, m.name, n);
        let helped = MetricView { help: m.help, ..fresh };
        assert(textfile::families_of(one) =~= fs.push(helped));
        let with_help = fs.push(helped);
        assert forall|j: int| 0 <= j < n implies (#[trigger] with_help[j]).name != m.name by {
            assert(with_help[j] == fs[j]);
        }
        metric::lemma_family_index(with_help, m.name, n);
        let typed = MetricView { mtype: m.mtype, ..helped };
        assert(textfile::families_of(two) =~= fs.push(typed));
        assert(back.samples.take(0) =~= seq![]);
    } else {
        lemma_family_appears(before, m, k - 1);
        let shorter = before + says.take(1 + k);
        let longer = before + says.take(2 + k);
        assert(longer.drop_last() =~= shorter);
        assert(longer.last() == says[1 + k]);
        let had = back.with_samples(back.samples.take(k - 1));
        let with_had = fs.push(had);
        assert forall|j: int| 0 <= j < n implies (#[trigger] with_had[j]).name != m.name by {
            assert(with_had[j] == fs[j]);
        }
        metric::lemma_family_index(with_had, m.name, n);
        assert(back.samples.take(k) =~= back.samples.take(k - 1).push(back.samples[k - 1]));
        assert(textfile::families_of(longer) =~= fs.push(
            back.with_samples(back.samples.take(k)),
        ));
    }
}

/// The lines of families, one after the other.
pub open spec fn all_lines(ms: Seq<MetricView<DoubleView>>) -> Seq<Seq<char>>
    decreases ms.len(),
{
    if ms.len() == 0 {
        seq![]
    } else {
        all_lines(ms.drop_last()) + family_lines(ms.last())
    }
}

/// What the lines of families say.
pub open spec fn all_say(ms: Seq<MetricView<DoubleView>>) -> Seq<textfile::LineView>
    decreases ms.len(),
{
    if ms.len() == 0 {
        seq![]
    } else {
        all_say(ms.drop_last()) + family_says(ms.last())
    }
}

/// What families are read back as. One without samples is not written.
pub open spec fn families_back(ms: Seq<MetricView<DoubleView>>) -> Seq<MetricView<ValueView>>
    decreases ms.len(),
{
    if ms.len() == 0 {
        seq![]
    } else if ms.last().samples.len() == 0 {
        families_back(ms.drop_last())
    } else {
        families_back(ms.drop_last()).push(family_back(ms.last()))
    }
}

/// Whether all families can be read back.
pub open spec fn are_plain_families(ms: Seq<MetricView<DoubleView>>) -> bool {
    forall|i: int| 0 <= i < ms.len() ==> is_plain_family(#[trigger] ms[i])
}

proof fn lemma_all_lines(ms: Seq<MetricView<DoubleView>>)
    ensures
        encoding::encoded(ms) == terminated(all_lines(ms)),
    decreases ms.len(),
{
    if ms.len() > 0 {
        lemma_all_lines(ms.drop_last());
        family_text_is_its_lines(ms.last());
        lemma_terminated_joins(all_lines(ms.drop_last()), family_lines(ms.last()));
    }
}

proof fn lemma_all_rows(ms: Seq<MetricView<DoubleView>>, i: int, k: int)
    requires
        are_plain_families(ms),
        0 <= k < all_lines(ms).len(),
    ensures
        all_say(ms).len() == all_lines(ms).len(),
        is_line(all_lines(ms)[k]),
        textfile::exposition_row(i, all_lines(ms)[k]) == Row::Keep(all_say(ms)[k]),
    decreases ms.len(),
{
    let front = ms.drop_last();
    let last = ms.last();
    assert forall|j: int| 0 <= j < front.len() implies is_plain_family(#[trigger] front[j]) by {
        assert(front[j] == ms[j]);
    }
    assert(is_plain_family(ms[ms.len() - 1]));
    lemma_say_length(front);
    let n = all_lines(front).len() as int;
    if k < n {
        lemma_all_rows(front, i, k);
    } else {
        lemma_family_lines(last, i, k - n);
    }
}

proof fn lemma_say_length(ms: Seq<MetricView<DoubleView>>)
    ensures
        all_say(ms).len() == all_lines(ms).len(),
    decreases ms.len(),
{
    if ms.len() > 0 {
        lemma_say_length(ms.drop_last());
    }
}

proof fn lemma_back_names(ms: Seq<MetricView<DoubleView>>, name: Seq<char>)
    requires
        forall|i: int| 0 <= i < ms.len() ==> (#[trigger] ms[i]).name != name,
    ensures
        forall|j: int|
            0 <= j < families_back(ms).len() ==> (#[trigger] families_back(ms)[j]).name != name,
    decreases ms.len(),
{
    if ms.len() > 0 {
        let front = ms.drop_last();
        assert forall|i: int| 0 <= i < front.len() implies (#[trigger] front[i]).name != name by {
            assert(front[i] == ms[i]);
        }
        lemma_back_names(front, name);
        assert(ms[ms.len() - 1].name != name);
        assert forall|j: int| 0 <= j < families_back(ms).len() implies (
        #[trigger] families_back(ms)[j]).name != name by {
            if j < families_back(front).len() {
                assert(families_back(front)[j].name != name);
            }
        }
    }
}

proof fn lemma_families_of_all(ms: Seq<MetricView<DoubleView>>)
    requires
        metric::distinct_names(ms),
    ensures
        textfile::families_of(all_say(ms)) == families_back(ms),
    decreases ms.len(),
{
    if ms.len() > 0 {
        let front = ms.drop_last();
        let last = ms.last();
        assert forall|i: int, j: int| 0 <= i < j < front.len() implies (#[trigger] front[i]).name
            != (#[trigger] front[j]).name by {
            assert(front[i] == ms[i] && front[j] == ms[j]);
        }
        lemma_families_of_all(front);
        let before = all_say(front);
        if last.samples.len() == 0 {
            assert(before + family_says(last) =~= before);
        } else {
            assert forall|i: int| 0 <= i < front.len() implies (#[trigger] front[i]).name
                != last.name by {
                assert(front[i] == ms[i] && last == ms[ms.len() - 1]);
            }
            lemma_back_names(front, last.name);
            let n = last.samples.len() as int;
            lemma_family_appears(before, last, n);
            assert(family_says(last).take(2 + n) =~= family_says(last));
            assert(family_back(last).samples.take(n) =~= family_back(last).samples);
        }
    }
}

/// Where every line is kept, the rows are what the lines come to.
proof fn lemma_rows_kept<T>(
    lines: Seq<Seq<char>>,
    row: spec_fn(int, Seq<char>) -> Row<T>,
    kept: Seq<T>,
)
    requires
        kept.len() == lines.len(),
        forall|i: int| 0 <= i < lines.len() ==> row(i, #[trigger] lines[i]) == Row::Keep(kept[i]),
    ensures
        rows::rows(lines, row) == Ok::<_, Seq<char>>(kept),
{
    rows::every_line_is_a_row(lines, row, kept);
}

/// What the encoder writes, the parser of text files reads back: the same
/// families in the same order, with the same names, help texts, types, samples
/// and labels, and with the numbers that the values' texts spell. Families
/// without samples are not written.
pub proof fn encoded_families_read_back(ms: Seq<MetricView<DoubleView>>)
    requires
        are_plain_families(ms),
        metric::distinct_names(ms),
    ensures
        textfile::exposition(encoding::encoded(ms)) == Ok::<_, Seq<char>>(families_back(ms)),
{
    let lines = all_lines(ms);
    let says = all_say(ms);
    let row = textfile::exposition_row_at();
    lemma_all_lines(ms);
    lemma_say_length(ms);
    assert forall|k: int| 0 <= k < lines.len() implies is_line(#[trigger] lines[k]) by {
        lemma_all_rows(ms, 0, k);
    }
    lines_come_apart(lines);
    assert forall|k: int| 0 <= k < lines.len() implies row(k, #[trigger] lines[k]) == Row::Keep(
        says[k],
    ) by {
        lemma_all_rows(ms, k, k);
    }
    lemma_rows_kept(lines, row, says);
    lemma_families_of_all(ms);
}

/// What is written of a family is nothing where it has no samples. Otherwise it
/// is a help line, a type line and a line for each sample, each with a line
/// feed behind it and none in it, whatever the help text and the labels' values
/// hold.
pub proof fn families_are_written_in_lines(m: MetricView<DoubleView>)
    requires
        lacks(m.name, '\n'),
        forall|i: int|
            0 <= i < m.samples.len() ==> keys_are_lines((#[trigger] m.samples[i]).labels)
                && double::is_faithful(m.samples[i].value),
    ensures
        encoding::encoded(seq![m]).len() == 0 <==> m.samples.len() == 0,
        encoding::encoded(seq![m]) == terminated(family_lines(m)),
        text::split(encoding::encoded(seq![m]), '\n') == family_lines(m).push(seq![]),
        m.samples.len() > 0 ==> family_lines(m).len() == 2 + m.samples.len(),
        forall|k: int| 0 <= k < family_lines(m).len() ==> lacks(#[trigger] family_lines(m)[k], '\n'),
{
    let one = seq![m];
    let lines = family_lines(m);
    assert(one.drop_last() =~= seq![]);
    assert(encoding::encoded(one.drop_last()) =~= seq![]);
    assert(encoding::encoded(one) =~= encoding::family_text(m));
    family_text_is_its_lines(m);
    if m.samples.len() > 0 {
        reveal_strlit("# HELP ");
        assert(encoding::family_text(m).len() > 0);
    }
    assert forall|k: int| 0 <= k < lines.len() implies lacks(#[trigger] lines[k], '\n') by {
        if k == 0 {
            lemma_help_line_lacks(m.name, m.help);
        } else if k == 1 {
            lemma_type_line_lacks(m.name, m.mtype);
        } else {
            let s = m.samples[k - 2];
            assert(lines[k] == sample_line(m.name, s));
            lemma_sample_line_lacks(m.name, s);
        }
    }
    lemma_split_terminated(lines);
}

/// Whether a family that was read is the one that was written: its name, its
/// help text, its type, and its samples in order, with their labels and values.
pub open spec fn is_family_of(back: MetricView<ValueView>, m: MetricView<DoubleView>) -> bool {
    &&& back.name == m.name
    &&& back.help == m.help
    &&& back.mtype == m.mtype
    &&& back.samples.len() == m.samples.len()
    &&& forall|i: int|
        0 <= i < m.samples.len() ==> (#[trigger] back.samples[i]).labels == m.samples[i].labels
            && double::is_reading_of(back.samples[i].value, m.samples[i].value.bits)
}

proof fn lemma_families_back(ms: Seq<MetricView<DoubleView>>)
    requires
        are_plain_families(ms),
        forall|i: int| 0 <= i < ms.len() ==> (#[trigger] ms[i]).samples.len() > 0,
    ensures
        families_back(ms).len() == ms.len(),
        forall|i: int| 0 <= i < ms.len() ==> is_family_of(#[trigger] families_back(ms)[i], ms[i]),
    decreases ms.len(),
{
    if ms.len() > 0 {
        let front = ms.drop_last();
        assert forall|i: int| 0 <= i < front.len() implies is_plain_family(#[trigger] front[i])
            && front[i].samples.len() > 0 by {
            assert(front[i] == ms[i]);
        }
        lemma_families_back(front);
        let m = ms[ms.len() - 1];
        assert(is_plain_family(m));
        assert forall|i: int| 0 <= i < m.samples.len() implies (
        #[trigger] family_back(m).samples[i]).labels == m.samples[i].labels
            && double::is_reading_of(family_back(m).samples[i].value, m.samples[i].value.bits) by {
            assert(is_plain_sample(m.samples[i]));
            values_read_back(m.samples[i].value);
        }
        assert forall|i: int| 0 <= i < ms.len() implies is_family_of(
            #[trigger] families_back(ms)[i],
            ms[i],
        ) by {
            if i < front.len() {
                assert(families_back(ms)[i] == families_back(front)[i]);
                assert(front[i] == ms[i]);
            }
        }
    }
}

/// Families that all have samples are read back one for one, with the values
/// that were written.
pub proof fn written_families_read_back(ms: Seq<MetricView<DoubleView>>)
    requires
        are_plain_families(ms),
        metric::distinct_names(ms),
        forall|i: int| 0 <= i < ms.len() ==> (#[trigger] ms[i]).samples.len() > 0,
    ensures
        textfile::exposition(encoding::encoded(ms)) is Ok,
        textfile::exposition(encoding::encoded(ms))->Ok_0.len() == ms.len(),
        forall|i: int|
            0 <= i < ms.len() ==> is_family_of(
                #[trigger] textfile::exposition(encoding::encoded(ms))->Ok_0[i],
                ms[i],
            ),
{
    encoded_families_read_back(ms);
    lemma_families_back(ms);
}

} // verus!
