//! `textfile`: re-exports metrics from `*.prom` files in a configured
//! directory.
//!
//! Batch jobs, cron tasks and ad-hoc scripts expose their own metrics without
//! running an HTTP server: each writer drops a file in the Prometheus text
//! exposition format into a shared directory, and the exporter merges them
//! into its own output on every scrape.
//!
//! - Only top-level `*.prom` files in the configured directory are read.
//! - One `node_textfile_mtime_seconds{file="<basename>"}` gauge per file, so
//!   operators can alert on stale producers.
//! - `node_textfile_scrape_error` is `1` when *any* file in the directory
//!   failed to read or parse on this scrape, otherwise `0`. Files that did
//!   parse still contribute their metrics: partial scrape output is more
//!   useful than none.
//! - Without a configured directory the collector emits nothing and reports
//!   success.

use vstd::prelude::*;
use vstd::slice::slice_subrange;

use crate::config::Config;
use crate::error::Error;
use crate::metric;
use crate::metric::{
    find_family, LabelView, Metric, MetricType, MetricView, Reading, ReadingView, Sample,
    SampleView, Scale, Value, ValueView,
};
use crate::number;
use crate::number::{float_literal, push_decimal};
use crate::order;
use crate::order::{bytes_before, sort, Ordered};
use crate::quantity;
use crate::rows;
use crate::rows::Row;
use crate::text;
use crate::text::{
    ascii_space, chars_of, find_char, lines_of, push_quoted_chars, same, string_of, trimmed,
    trimmed_start, words_of,
};

verus! {

// --------------------------------------------------------------- quoted text

/// What a backslash and `c` stand for in a label's value.
pub open spec fn label_escape(c: char) -> Seq<char> {
    if c == '\\' {
        seq!['\\']
    } else if c == '"' {
        seq!['"']
    } else if c == 'n' {
        seq!['\n']
    } else {
        seq!['\\', c]
    }
}

/// The text up to the closing quote, decoded, and what follows the quote.
/// `None` where there is no closing quote.
pub open spec fn quoted_text(s: Seq<char>) -> Option<(Seq<char>, Seq<char>)>
    decreases s.len(),
{
    if s.len() == 0 {
        None
    } else if s[0] == '"' {
        Some((seq![], s.skip(1)))
    } else if s[0] == '\\' && s.len() > 1 {
        match quoted_text(s.skip(2)) {
            Some((text, tail)) => Some((label_escape(s[1]) + text, tail)),
            None => None,
        }
    } else {
        match quoted_text(s.skip(1)) {
            Some((text, tail)) => Some((seq![s[0]] + text, tail)),
            None => None,
        }
    }
}

/// What follows the closing quote is shorter than the whole.
pub proof fn lemma_quoted_tail(s: Seq<char>)
    ensures
        quoted_text(s) is Some ==> (quoted_text(s)->0).1.len() < s.len(),
    decreases s.len(),
{
    if s.len() > 0 && s[0] != '"' {
        if s[0] == '\\' && s.len() > 1 {
            lemma_quoted_tail(s.skip(2));
        } else {
            lemma_quoted_tail(s.skip(1));
        }
    }
}

/// `before` and what `rest` was decoded to.
pub open spec fn after_text(
    before: Seq<char>,
    rest: Option<(Seq<char>, Seq<char>)>,
) -> Option<(Seq<char>, Seq<char>)> {
    match rest {
        Some((text, tail)) => Some((before + text, tail)),
        None => None,
    }
}

/// Reads a double-quoted string whose opening quote stands before `s`.
pub fn scan_quoted<'a>(s: &'a [char]) -> (r: Result<(String, &'a [char]), Error>)
    ensures
        match r {
            Ok((text, tail)) => quoted_text(s@) == Some((text@, tail@)),
            Err(e) => quoted_text(s@) is None && e@ == "unterminated quoted string"@,
        },
{
    let mut out = String::new();
    let mut i: usize = 0;
    assert(s@.skip(0) =~= s@);
    assert(quoted_text(s@) == after_text(out@, quoted_text(s@))) by {
        if quoted_text(s@) is Some {
            assert(out@ + (quoted_text(s@)->0).0 =~= (quoted_text(s@)->0).0);
        }
    }
    while i < s.len()
        invariant
            i <= s@.len(),
            quoted_text(s@) == after_text(out@, quoted_text(s@.skip(i as int))),
        decreases s@.len() - i,
    {
        let c = s[i];
        let ghost rest = s@.skip(i as int);
        let ghost had = out@;
        assert(rest[0] == c);
        if c == '"' {
            let tail = slice_subrange(s, i + 1, s.len());
            assert(tail@ =~= rest.skip(1));
            assert(out@ + seq![] =~= out@);
            return Ok((out, tail));
        }
        if c == '\\' && s.len() - i > 1 {
            let e = s[i + 1];
            assert(rest[1] == e);
            if e == '\\' {
                out.push('\\');
            } else if e == '"' {
                out.push('"');
            } else if e == 'n' {
                out.push('\n');
            } else {
                out.push('\\');
                out.push(e);
            }
            proof {
                assert(out@ =~= had + label_escape(e));
                assert(rest.skip(2) =~= s@.skip(i + 2));
                if quoted_text(rest.skip(2)) is Some {
                    let text = (quoted_text(rest.skip(2))->0).0;
                    assert(had + (label_escape(e) + text) =~= out@ + text);
                }
            }
            i = i + 2;
        } else {
            out.push(c);
            proof {
                assert(rest.skip(1) =~= s@.skip(i + 1));
                if quoted_text(rest.skip(1)) is Some {
                    let text = (quoted_text(rest.skip(1))->0).0;
                    assert(had + (seq![c] + text) =~= out@ + text);
                }
            }
            i = i + 1;
        }
    }
    Err(Error::new("unterminated quoted string".to_owned()))
}

// --------------------------------------------------------------------- labels

/// `labels` and what `rest` comes to.
pub open spec fn after_labels(
    labels: Seq<LabelView>,
    rest: Result<Seq<LabelView>, Seq<char>>,
) -> Result<Seq<LabelView>, Seq<char>> {
    match rest {
        Ok(more) => Ok(labels + more),
        Err(m) => Err(m),
    }
}

/// The labels that `rest` spells, or a message.
pub open spec fn label_list(rest: Seq<char>) -> Result<Seq<LabelView>, Seq<char>>
    decreases rest.len(),
    via label_list_decreases
{
    let eq = text::first_index(rest, '=');
    let key = text::trim(rest.take(eq));
    let after_eq = text::trim_start(rest.skip(eq + 1));
    if rest.len() == 0 {
        Ok(seq![])
    } else if eq >= rest.len() {
        Err("label missing ="@)
    } else if key.len() == 0 {
        Err("empty label name"@)
    } else if after_eq.len() == 0 || after_eq[0] != '"' {
        Err("label value must be quoted"@)
    } else {
        match quoted_text(after_eq.skip(1)) {
            None => Err("unterminated quoted string"@),
            Some((value, tail)) => {
                let next = text::trim_start(tail);
                if next.len() == 0 {
                    Ok(seq![(key, value)])
                } else if next[0] == ',' {
                    after_labels(
                        seq![(key, value)],
                        label_list(text::trim_start(next.skip(1))),
                    )
                } else {
                    Err("expected ',' between labels, got "@ + text::debug_form(next))
                }
            },
        }
    }
}

#[via_fn]
proof fn label_list_decreases(rest: Seq<char>) {
    let eq = text::first_index(rest, '=');
    text::lemma_run_meaning(rest, text::other_than('='));
    let after_eq = text::trim_start(rest.skip(eq + 1));
    text::lemma_run_meaning(rest.skip(eq + 1), text::blank());
    if after_eq.len() > 0 {
        lemma_quoted_tail(after_eq.skip(1));
        if quoted_text(after_eq.skip(1)) is Some {
            let tail = (quoted_text(after_eq.skip(1))->0).1;
            text::lemma_run_meaning(tail, text::blank());
            let next = text::trim_start(tail);
            if next.len() > 0 {
                text::lemma_run_meaning(next.skip(1), text::blank());
            }
        }
    }
}

/// The labels that the text between the braces spells: `k="v",k2="v2"`.
pub open spec fn labels_of(body: Seq<char>) -> Result<Seq<LabelView>, Seq<char>> {
    label_list(text::trim(body))
}

/// Parses one label at the start of `rest`, which is not empty. What follows
/// it, without the comma, comes with it.
fn parse_label<'a>(rest: &'a [char]) -> (r: Result<((String, String), &'a [char]), Error>)
    requires
        rest@.len() > 0,
    ensures
        match r {
            Ok((label, next)) => next@.len() < rest@.len() && label_list(rest@)
                == after_labels(seq![(label.0@, label.1@)], label_list(next@)),
            Err(e) => label_list(rest@) == Err::<Seq<LabelView>, _>(e@),
        },
{
    let eq = find_char(rest, '=');
    if eq == rest.len() {
        return Err(Error::new("label missing =".to_owned()));
    }
    let key = trimmed(slice_subrange(rest, 0, eq));
    if key.len() == 0 {
        return Err(Error::new("empty label name".to_owned()));
    }
    let after_eq = trimmed_start(slice_subrange(rest, eq + 1, rest.len()));
    if after_eq.len() == 0 || after_eq[0] != '"' {
        return Err(Error::new("label value must be quoted".to_owned()));
    }
    let body = slice_subrange(after_eq, 1, after_eq.len());
    proof {
        text::lemma_run_meaning(rest@.skip(eq + 1), text::blank());
        lemma_quoted_tail(body@);
    }
    match scan_quoted(body) {
        Ok((value, tail)) => {
            let next = trimmed_start(tail);
            proof {
                text::lemma_run_meaning(tail@, text::blank());
            }
            if next.len() == 0 {
                proof {
                    let one = seq![(key@, value@)];
                    assert(label_list(next@) == Ok::<Seq<LabelView>, Seq<char>>(seq![]));
                    assert(one + seq![] =~= one);
                }
                Ok(((string_of(key), value), next))
            } else if next[0] == ',' {
                let more = trimmed_start(slice_subrange(next, 1, next.len()));
                proof {
                    text::lemma_run_meaning(next@.skip(1), text::blank());
                }
                Ok(((string_of(key), value), more))
            } else {
                let mut m = "expected ',' between labels, got ".to_owned();
                push_quoted_chars(&mut m, next);
                Err(Error::new(m))
            }
        },
        Err(e) => Err(e),
    }
}

/// Parses the labels between the braces.
pub fn parse_labels(body: &[char]) -> (r: Result<Vec<(String, String)>, Error>)
    ensures
        match r {
            Ok(labels) => labels_of(body@) == Ok::<_, Seq<char>>(metric::label_views(labels@)),
            Err(e) => labels_of(body@) == Err::<Seq<LabelView>, _>(e@),
        },
{
    let mut out: Vec<(String, String)> = Vec::new();
    let mut rest = trimmed(body);
    let ghost all = label_list(rest@);
    assert(metric::label_views(out@) =~= seq![]);
    assert(all == after_labels(metric::label_views(out@), label_list(rest@))) by {
        if all is Ok {
            assert(metric::label_views(out@) + all->Ok_0 =~= all->Ok_0);
        }
    }
    while rest.len() > 0
        invariant
            all == labels_of(body@),
            all == after_labels(metric::label_views(out@), label_list(rest@)),
        decreases rest@.len(),
    {
        let ghost had = metric::label_views(out@);
        match parse_label(rest) {
            Ok((label, next)) => {
                let ghost one = (label.0@, label.1@);
                out.push(label);
                rest = next;
                proof {
                    assert(metric::label_views(out@) =~= had.push(one));
                    if label_list(rest@) is Ok {
                        let more = label_list(rest@)->Ok_0;
                        assert(had + (seq![one] + more) =~= had.push(one) + more);
                    }
                }
            },
            Err(e) => {
                return Err(e);
            },
        }
    }
    assert(metric::label_views(out@) + seq![] =~= metric::label_views(out@));
    Ok(out)
}

/// Where the labels end, given what follows the opening brace: at the first
/// `}` outside a quoted value. The length of `s` where there is none.
pub open spec fn block_end(s: Seq<char>) -> int
    decreases s.len(),
    via block_end_decreases
{
    let eq = text::first_index(s, '=');
    let close = text::first_index(s, '}');
    let after_eq = text::trim_start(s.skip(eq + 1));
    if close <= eq {
        close
    } else if after_eq.len() == 0 || after_eq[0] != '"' {
        eq + 1 + block_end(s.skip(eq + 1))
    } else {
        match quoted_text(after_eq.skip(1)) {
            Some((_, tail)) => s.len() - tail.len() + block_end(tail),
            None => close,
        }
    }
}

#[via_fn]
proof fn block_end_decreases(s: Seq<char>) {
    let eq = text::first_index(s, '=');
    text::lemma_run_meaning(s, text::other_than('='));
    text::lemma_run_meaning(s, text::other_than('}'));
    let after_eq = text::trim_start(s.skip(eq + 1));
    text::lemma_run_meaning(s.skip(eq + 1), text::blank());
    if after_eq.len() > 0 {
        lemma_quoted_tail(after_eq.skip(1));
    }
}

/// Finds the end of the labels.
fn find_block_end(s: &[char]) -> (r: usize)
    ensures
        r == block_end(s@),
        r <= s@.len(),
{
    let mut rest = s;
    loop
        invariant
            rest@.len() <= s@.len(),
            block_end(s@) == s@.len() - rest@.len() + block_end(rest@),
        decreases rest@.len(),
    {
        let eq = find_char(rest, '=');
        let close = find_char(rest, '}');
        if close <= eq {
            return s.len() - rest.len() + close;
        }
        let behind = slice_subrange(rest, eq + 1, rest.len());
        let after_eq = trimmed_start(behind);
        proof {
            text::lemma_run_meaning(behind@, text::blank());
        }
        if after_eq.len() == 0 || after_eq[0] != '"' {
            rest = behind;
        } else {
            let body = slice_subrange(after_eq, 1, after_eq.len());
            proof {
                lemma_quoted_tail(body@);
            }
            match scan_quoted(body) {
                Ok((_, tail)) => {
                    rest = tail;
                },
                Err(_) => {
                    return s.len() - rest.len() + close;
                },
            }
        }
    }
}

// --------------------------------------------------------------------- values

/// The number that a word of a sample spells, or a message.
pub open spec fn value_of(word: Seq<char>) -> Result<ValueView, Seq<char>> {
    if word == "NaN"@ || word == "nan"@ {
        Ok(ValueView { reading: ReadingView::NotANumber, scale: Scale::Unit })
    } else if word == "+Inf"@ || word == "Inf"@ || word == "inf"@ {
        Ok(ValueView { reading: ReadingView::Infinity, scale: Scale::Unit })
    } else if word == "-Inf"@ || word == "-inf"@ {
        Ok(ValueView { reading: ReadingView::NegativeInfinity, scale: Scale::Unit })
    } else if number::is_float(word) {
        Ok(ValueView::decimal(word))
    } else {
        Err("bad value "@ + text::debug_form(word))
    }
}

/// Parses the number that a word of a sample spells.
pub fn parse_value(word: &[char]) -> (r: Result<Value, Error>)
    ensures
        match r {
            Ok(v) => value_of(word@) == Ok::<_, Seq<char>>(v@),
            Err(e) => value_of(word@) == Err::<ValueView, _>(e@),
        },
{
    if same(word, "NaN") || same(word, "nan") {
        Ok(Value { reading: Reading::NotANumber, scale: Scale::Unit })
    } else if same(word, "+Inf") || same(word, "Inf") || same(word, "inf") {
        Ok(Value { reading: Reading::Infinity, scale: Scale::Unit })
    } else if same(word, "-Inf") || same(word, "-inf") {
        Ok(Value { reading: Reading::NegativeInfinity, scale: Scale::Unit })
    } else if float_literal(word) {
        Ok(Value::decimal(string_of(word)))
    } else {
        let mut m = "bad value ".to_owned();
        push_quoted_chars(&mut m, word);
        Err(Error::new(m))
    }
}

// -------------------------------------------------------------------- samples

/// Holds of the characters of a metric's name.
pub open spec fn name_char() -> spec_fn(char) -> bool {
    |c: char| !text::is_ascii_space(c) && c != '{'
}

/// The sample whose labels are known, given what follows them. A timestamp may
/// follow the value.
pub open spec fn valued(labels: Seq<LabelView>, rest: Seq<char>) -> Result<
    SampleView<ValueView>,
    Seq<char>,
> {
    let words = text::words(rest);
    if words.len() == 0 {
        Err("missing value"@)
    } else {
        match value_of(words[0]) {
            Ok(value) => Ok(SampleView { labels, value }),
            Err(m) => Err(m),
        }
    }
}

/// `s` without the blanks, tabs and the like at its start.
pub open spec fn after_spaces(s: Seq<char>) -> Seq<char> {
    s.skip(text::run(s, text::separator()))
}

/// The name and the sample that a line spells: `name[{labels}] value
/// [timestamp]`.
pub open spec fn sample_of(line: Seq<char>) -> Result<
    (Seq<char>, SampleView<ValueView>),
    Seq<char>,
> {
    let n = text::run(line, name_char());
    let after = after_spaces(line.skip(n));
    let body = after.skip(1);
    let close = block_end(body);
    let sample = if after.len() == 0 || after[0] != '{' {
        valued(seq![], after)
    } else if close >= body.len() {
        Err("unterminated label block"@)
    } else {
        match labels_of(body.take(close)) {
            Ok(labels) => valued(labels, body.skip(close + 1)),
            Err(m) => Err(m),
        }
    };
    if n >= line.len() {
        Err("missing value"@)
    } else if n == 0 {
        Err("empty metric name"@)
    } else {
        match sample {
            Ok(sample) => Ok((line.take(n), sample)),
            Err(m) => Err(m),
        }
    }
}

fn with_value(labels: Vec<(String, String)>, rest: &[char]) -> (r: Result<Sample<Value>, Error>)
    ensures
        match r {
            Ok(s) => valued(metric::label_views(labels@), rest@) == Ok::<_, Seq<char>>(s@),
            Err(e) => valued(metric::label_views(labels@), rest@) == Err::<
                SampleView<ValueView>,
                _,
            >(e@),
        },
{
    let words = words_of(rest);
    assert(text::views(words@).len() == words@.len());
    if words.len() == 0 {
        return Err(Error::new("missing value".to_owned()));
    }
    assert(text::views(words@)[0] == words@[0]@);
    match parse_value(words[0]) {
        Ok(value) => Ok(Sample { labels, value }),
        Err(e) => Err(e),
    }
}

fn without_spaces(s: &[char]) -> (r: &[char])
    ensures
        r@ == after_spaces(s@),
{
    let mut i: usize = 0;
    while i < s.len() && ascii_space(s[i])
        invariant
            i <= s@.len(),
            forall|j: int| 0 <= j < i ==> text::separator()(#[trigger] s@[j]),
        decreases s@.len() - i,
    {
        i = i + 1;
    }
    proof {
        text::lemma_run(s@, text::separator(), i as int);
    }
    slice_subrange(s, i, s.len())
}

/// Parses one line as a sample.
pub fn parse_sample(line: &[char]) -> (r: Result<(String, Sample<Value>), Error>)
    ensures
        match r {
            Ok((name, s)) => sample_of(text::trim(line@)) == Ok::<_, Seq<char>>((name@, s@)),
            Err(e) => sample_of(text::trim(line@)) == Err::<
                (Seq<char>, SampleView<ValueView>),
                _,
            >(e@),
        },
{
    let line = trimmed(line);
    let mut n: usize = 0;
    while n < line.len() && !ascii_space(line[n]) && line[n] != '{'
        invariant
            n <= line@.len(),
            forall|j: int| 0 <= j < n ==> name_char()(#[trigger] line@[j]),
        decreases line@.len() - n,
    {
        n = n + 1;
    }
    proof {
        text::lemma_run(line@, name_char(), n as int);
    }
    if n == line.len() {
        return Err(Error::new("missing value".to_owned()));
    }
    if n == 0 {
        return Err(Error::new("empty metric name".to_owned()));
    }
    let after = without_spaces(slice_subrange(line, n, line.len()));
    let sample = if after.len() > 0 && after[0] == '{' {
        let body = slice_subrange(after, 1, after.len());
        let close = find_block_end(body);
        if close == body.len() {
            return Err(Error::new("unterminated label block".to_owned()));
        }
        match parse_labels(slice_subrange(body, 0, close)) {
            Ok(labels) => with_value(labels, slice_subrange(body, close + 1, body.len())),
            Err(e) => Err(e),
        }
    } else {
        let none: Vec<(String, String)> = Vec::new();
        assert(metric::label_views(none@) =~= seq![]);
        with_value(none, after)
    };
    match sample {
        Ok(s) => Ok((string_of(slice_subrange(line, 0, n)), s)),
        Err(e) => Err(e),
    }
}

// ----------------------------------------------------------------- directives

/// What a backslash and `c` stand for in a help text.
pub open spec fn help_escape(c: char) -> Seq<char> {
    if c == '\\' {
        seq!['\\']
    } else if c == 'n' {
        seq!['\n']
    } else {
        seq!['\\', c]
    }
}

/// A help text, decoded.
pub open spec fn unescaped(s: Seq<char>) -> Seq<char>
    decreases s.len(),
{
    if s.len() == 0 {
        seq![]
    } else if s[0] != '\\' {
        seq![s[0]] + unescaped(s.skip(1))
    } else if s.len() == 1 {
        seq!['\\']
    } else {
        help_escape(s[1]) + unescaped(s.skip(2))
    }
}

/// Decodes a help text.
pub fn unescape_help(s: &[char]) -> (r: String)
    ensures
        r@ == unescaped(s@),
{
    let mut out = String::new();
    let mut i: usize = 0;
    assert(s@.skip(0) =~= s@);
    assert(out@ + unescaped(s@) =~= unescaped(s@));
    while i < s.len()
        invariant
            i <= s@.len(),
            unescaped(s@) == out@ + unescaped(s@.skip(i as int)),
        decreases s@.len() - i,
    {
        let c = s[i];
        let ghost rest = s@.skip(i as int);
        let ghost had = out@;
        assert(rest[0] == c);
        if c != '\\' {
            out.push(c);
            proof {
                assert(rest.skip(1) =~= s@.skip(i + 1));
                assert(had + (seq![c] + unescaped(rest.skip(1))) =~= out@ + unescaped(
                    rest.skip(1),
                ));
            }
            i = i + 1;
        } else if s.len() - i == 1 {
            out.push('\\');
            proof {
                assert(had + seq!['\\'] =~= out@);
                assert(s@.skip(i + 1) =~= seq![]);
                assert(out@ + unescaped(s@.skip(i + 1)) =~= out@);
            }
            i = i + 1;
        } else {
            let e = s[i + 1];
            assert(rest[1] == e);
            if e == '\\' {
                out.push('\\');
            } else if e == 'n' {
                out.push('\n');
            } else {
                out.push('\\');
                out.push(e);
            }
            proof {
                assert(out@ =~= had + help_escape(e));
                assert(rest.skip(2) =~= s@.skip(i + 2));
                assert(had + (help_escape(e) + unescaped(rest.skip(2))) =~= out@ + unescaped(
                    rest.skip(2),
                ));
            }
            i = i + 2;
        }
    }
    assert(s@.skip(i as int) =~= seq![]);
    assert(out@ + seq![] =~= out@);
    out
}

/// The first word of `s` and what follows the space behind it. `None` where no
/// space follows.
pub open spec fn split_once(s: Seq<char>) -> Option<(Seq<char>, Seq<char>)> {
    let t = text::trim_start(s);
    let n = text::run(t, text::word_char());
    if n >= t.len() {
        None
    } else {
        Some((t.take(n), text::trim_start(t.skip(n))))
    }
}

/// Splits off the first word.
pub fn split_once_ws<'a>(s: &'a [char]) -> (r: Option<(&'a [char], &'a [char])>)
    ensures
        match r {
            Some((word, rest)) => split_once(s@) == Some((word@, rest@)),
            None => split_once(s@) is None,
        },
{
    let t = trimmed_start(s);
    let mut n: usize = 0;
    while n < t.len() && !ascii_space(t[n])
        invariant
            n <= t@.len(),
            forall|j: int| 0 <= j < n ==> !text::is_ascii_space(#[trigger] t@[j]),
        decreases t@.len() - n,
    {
        n = n + 1;
    }
    proof {
        text::lemma_run(t@, text::word_char(), n as int);
    }
    if n == t.len() {
        return None;
    }
    Some((slice_subrange(t, 0, n), trimmed_start(slice_subrange(t, n, t.len()))))
}

/// The type that a word names. The samples of histograms and summaries count
/// one by one, so those families are untyped.
pub open spec fn type_of(s: Seq<char>) -> MetricType {
    let t = text::trim(s);
    if t == "counter"@ {
        MetricType::Counter
    } else if t == "gauge"@ {
        MetricType::Gauge
    } else {
        MetricType::Untyped
    }
}

/// Reads the type that a word names.
pub fn parse_type(s: &[char]) -> (r: MetricType)
    ensures
        r == type_of(s@),
{
    let t = trimmed(s);
    if same(t, "counter") {
        MetricType::Counter
    } else if same(t, "gauge") {
        MetricType::Gauge
    } else {
        MetricType::Untyped
    }
}

/// What a line tells of a family.
pub enum Line {
    Help(String, String),
    Type(String, MetricType),
    Sample(String, Sample<Value>),
}

/// What a [`Line`] says.
pub enum LineView {
    Help(Seq<char>, Seq<char>),
    Type(Seq<char>, MetricType),
    Sample(Seq<char>, SampleView<ValueView>),
}

impl View for Line {
    type V = LineView;

    open spec fn view(&self) -> LineView {
        match self {
            Line::Help(name, help) => LineView::Help(name@, help@),
            Line::Type(name, mtype) => LineView::Type(name@, *mtype),
            Line::Sample(name, sample) => LineView::Sample(name@, sample@),
        }
    }
}

/// What a line that starts with `#` comes to, given what follows the `#`:
/// `HELP` or `TYPE`, the name of a family and what is told of it. Any other is
/// a comment.
pub open spec fn directive(i: int, rest: Seq<char>) -> Row<LineView> {
    match split_once(rest) {
        None => Row::Skip,
        Some((word, payload)) => if word == "HELP"@ {
            match split_once(payload) {
                Some((name, help)) => Row::Keep(LineView::Help(name, unescaped(help))),
                None => Row::Keep(LineView::Help(payload, seq![])),
            }
        } else if word == "TYPE"@ {
            match split_once(payload) {
                Some((name, kind)) => Row::Keep(LineView::Type(name, type_of(kind))),
                None => Row::Fail(
                    "line "@ + number::decimal((i + 1) as nat) + ": malformed TYPE"@,
                ),
            }
        } else {
            Row::Skip
        },
    }
}

/// What line `i` comes to.
pub open spec fn exposition_row(i: int, line: Seq<char>) -> Row<LineView> {
    let t = text::trim(line);
    if t.len() == 0 {
        Row::Skip
    } else if t[0] == '#' {
        directive(i, t.skip(1))
    } else {
        match sample_of(text::trim(t)) {
            Ok((name, sample)) => Row::Keep(LineView::Sample(name, sample)),
            Err(m) => Row::Fail("line "@ + number::decimal((i + 1) as nat) + ": "@ + m),
        }
    }
}

pub open spec fn exposition_row_at() -> spec_fn(int, Seq<char>) -> Row<LineView> {
    |i: int, line: Seq<char>| exposition_row(i, line)
}

/// The start of a message about line `i`.
fn at_line(i: usize) -> (r: String)
    requires
        i < usize::MAX,
    ensures
        r@ == "line "@ + number::decimal((i + 1) as nat),
{
    let mut m = "line ".to_owned();
    push_decimal(&mut m, i as u64 + 1);
    m
}

fn parse_directive(i: usize, rest: &[char]) -> (r: Result<Option<Line>, Error>)
    requires
        i < usize::MAX,
    ensures
        match r {
            Ok(None) => directive(i as int, rest@) == Row::<LineView>::Skip,
            Ok(Some(line)) => directive(i as int, rest@) == Row::Keep(line@),
            Err(e) => directive(i as int, rest@) == Row::<LineView>::Fail(e@),
        },
{
    let (word, payload) = match split_once_ws(rest) {
        Some(parts) => parts,
        None => {
            return Ok(None);
        },
    };
    if same(word, "HELP") {
        match split_once_ws(payload) {
            Some((name, help)) => Ok(Some(Line::Help(string_of(name), unescape_help(help)))),
            None => {
                let help = String::new();
                assert(help@ =~= seq![]);
                Ok(Some(Line::Help(string_of(payload), help)))
            },
        }
    } else if same(word, "TYPE") {
        match split_once_ws(payload) {
            Some((name, kind)) => Ok(Some(Line::Type(string_of(name), parse_type(kind)))),
            None => {
                let mut m = at_line(i);
                m.push_str(": malformed TYPE");
                Err(Error::new(m))
            },
        }
    } else {
        Ok(None)
    }
}

fn parse_line(i: usize, line: &[char]) -> (r: Result<Option<Line>, Error>)
    requires
        i < usize::MAX,
    ensures
        match r {
            Ok(None) => exposition_row(i as int, line@) == Row::<LineView>::Skip,
            Ok(Some(l)) => exposition_row(i as int, line@) == Row::Keep(l@),
            Err(e) => exposition_row(i as int, line@) == Row::<LineView>::Fail(e@),
        },
{
    let t = trimmed(line);
    if t.len() == 0 {
        return Ok(None);
    }
    if t[0] == '#' {
        return parse_directive(i, slice_subrange(t, 1, t.len()));
    }
    match parse_sample(t) {
        Ok((name, sample)) => Ok(Some(Line::Sample(name, sample))),
        Err(e) => {
            let mut m = at_line(i);
            m.push_str(": ");
            m.push_str(e.message.as_str());
            Err(Error::new(m))
        },
    }
}

// ------------------------------------------------------------------- families

/// `families` with one of that name. One that is not there yet comes last,
/// without a help text, untyped and without samples.
pub open spec fn ensured(families: Seq<MetricView<ValueView>>, name: Seq<char>) -> Seq<
    MetricView<ValueView>,
> {
    if metric::family_index(families, name) < families.len() {
        families
    } else {
        families.push(MetricView::new(name, seq![], MetricType::Untyped))
    }
}

/// The name of the family that a line is about.
pub open spec fn line_name(line: LineView) -> Seq<char> {
    match line {
        LineView::Help(name, _) => name,
        LineView::Type(name, _) => name,
        LineView::Sample(name, _) => name,
    }
}

/// `family` with what a line tells of it.
pub open spec fn told(family: MetricView<ValueView>, line: LineView) -> MetricView<ValueView> {
    match line {
        LineView::Help(_, help) => MetricView { help, ..family },
        LineView::Type(_, mtype) => MetricView { mtype, ..family },
        LineView::Sample(_, sample) => family.with_sample(sample),
    }
}

/// `families` with what a line tells.
pub open spec fn with_line(families: Seq<MetricView<ValueView>>, line: LineView) -> Seq<
    MetricView<ValueView>,
> {
    let all = ensured(families, line_name(line));
    let i = metric::family_index(families, line_name(line));
    all.update(i, told(all[i], line))
}

/// The families that lines tell of, in the order in which they are first
/// named.
pub open spec fn families_of(lines: Seq<LineView>) -> Seq<MetricView<ValueView>>
    decreases lines.len(),
{
    if lines.len() == 0 {
        seq![]
    } else {
        with_line(families_of(lines.drop_last()), lines.last())
    }
}

/// What a file comes to: its families, or the message of its first faulty
/// line.
pub open spec fn exposition(raw: Seq<char>) -> Result<Seq<MetricView<ValueView>>, Seq<char>> {
    match rows::rows(text::lines(raw), exposition_row_at()) {
        Ok(lines) => Ok(families_of(lines)),
        Err(m) => Err(m),
    }
}

/// Finds the family of that name, and makes one where there is none.
fn ensure_family(families: &mut Vec<Metric<Value>>, name: &str) -> (r: usize)
    ensures
        metric::metric_views(final(families)@) == ensured(
            metric::metric_views(old(families)@),
            name@,
        ),
        r == metric::family_index(metric::metric_views(old(families)@), name@),
        r < final(families)@.len(),
{
    let ghost before = metric::metric_views(families@);
    let i = find_family(families, name);
    if i == families.len() {
        let m = Metric::new(name, "", MetricType::Untyped);
        families.push(m);
        proof {
            reveal_strlit("");
            assert(""@ =~= seq![]);
            assert(metric::metric_views(families@) =~= before.push(m@));
        }
    }
    i
}

fn add_line(families: &mut Vec<Metric<Value>>, line: Line)
    ensures
        metric::metric_views(final(families)@) == with_line(
            metric::metric_views(old(families)@),
            line@,
        ),
{
    let ghost said = line@;
    let i = match &line {
        Line::Help(name, _) => ensure_family(families, name.as_str()),
        Line::Type(name, _) => ensure_family(families, name.as_str()),
        Line::Sample(name, _) => ensure_family(families, name.as_str()),
    };
    let ghost all = metric::metric_views(families@);
    assert(all[i as int] == families@[i as int]@);
    let mut m = families.remove(i);
    match line {
        Line::Help(_, help) => {
            m.help = help;
        },
        Line::Type(_, mtype) => {
            m.mtype = mtype;
        },
        Line::Sample(_, sample) => {
            m.push(sample);
        },
    }
    assert(m@ == told(all[i as int], said));
    families.insert(i, m);
    assert(metric::metric_views(families@) =~= all.update(i as int, told(all[i as int], said)));
}

/// Parses a file.
pub fn parse_exposition(raw: &str) -> (r: Result<Vec<Metric<Value>>, Error>)
    ensures
        metric::outcome(r) == exposition(raw@),
{
    let chars = chars_of(raw);
    let lines = lines_of(chars.as_slice());
    let ghost all = text::lines(raw@);
    let ghost row = exposition_row_at();
    let ghost mut kept: Seq<LineView> = seq![];
    let mut out: Vec<Metric<Value>> = Vec::new();
    let mut i: usize = 0;
    assert(metric::metric_views(out@) =~= seq![]);
    while i < lines.len()
        invariant
            all == text::lines(raw@),
            row == exposition_row_at(),
            text::views(lines@) == all,
            i <= lines@.len(),
            rows::rows(all.take(i as int), row) == Ok::<_, Seq<char>>(kept),
            metric::metric_views(out@) == families_of(kept),
        decreases lines@.len() - i,
    {
        proof {
            assert(all[i as int] == lines@[i as int]@);
            rows::lemma_next_row(all, row, i as int);
        }
        match parse_line(i, lines[i]) {
            Ok(Some(line)) => {
                proof {
                    assert(kept.push(line@).drop_last() =~= kept);
                    kept = kept.push(line@);
                }
                add_line(&mut out, line);
            },
            Ok(None) => {},
            Err(e) => {
                proof {
                    rows::lemma_failed_row(all, row, i + 1);
                }
                return Err(e);
            },
        }
        i = i + 1;
    }
    assert(all.take(all.len() as int) =~= all);
    Ok(out)
}

/// `into` with one family more. Samples of a name already there are appended;
/// the help text and the type are those of the first.
pub open spec fn with_family(into: Seq<MetricView<ValueView>>, fresh: MetricView<ValueView>) -> Seq<
    MetricView<ValueView>,
> {
    let i = metric::family_index(into, fresh.name);
    if i < into.len() {
        into.update(i, into[i].with_samples(into[i].samples + fresh.samples))
    } else {
        into.push(fresh)
    }
}

/// `into` with more families, one after the other.
pub open spec fn merged(into: Seq<MetricView<ValueView>>, fresh: Seq<MetricView<ValueView>>) -> Seq<
    MetricView<ValueView>,
>
    decreases fresh.len(),
{
    if fresh.len() == 0 {
        into
    } else {
        with_family(merged(into, fresh.drop_last()), fresh.last())
    }
}

fn merge_family(into: &mut Vec<Metric<Value>>, fresh: Metric<Value>)
    ensures
        metric::metric_views(final(into)@) == with_family(
            metric::metric_views(old(into)@),
            fresh@,
        ),
{
    let ghost before = metric::metric_views(into@);
    let ghost said = fresh@;
    let i = find_family(into, fresh.name.as_str());
    if i < into.len() {
        assert(before[i as int] == into@[i as int]@);
        let mut m = into.remove(i);
        let mut samples = fresh.samples;
        m.samples.append(&mut samples);
        assert(metric::sample_views(m.samples@) =~= before[i as int].samples + said.samples);
        into.insert(i, m);
        assert(metric::metric_views(into@) =~= before.update(i as int, m@));
    } else {
        into.push(fresh);
        assert(metric::metric_views(into@) =~= before.push(said));
    }
}

/// Merges newly parsed families into the running accumulator.
pub fn merge_families(into: &mut Vec<Metric<Value>>, new: Vec<Metric<Value>>)
    ensures
        metric::metric_views(final(into)@) == merged(
            metric::metric_views(old(into)@),
            metric::metric_views(new@),
        ),
{
    let ghost before = metric::metric_views(into@);
    let ghost all = metric::metric_views(new@);
    for fresh in it: new
        invariant
            all == metric::metric_views(new@),
            it.seq() == new@,
            metric::metric_views(into@) == merged(before, all.take(it.index())),
    {
        proof {
            assert(all[it.index()] == fresh@);
            assert(all.take(it.index() + 1).drop_last() =~= all.take(it.index()));
        }
        merge_family(into, fresh);
    }
    assert(all.take(all.len() as int) =~= all);
}

// ------------------------------------------------------------------ collector

/// An entry of the directory.
#[derive(Debug, Clone)]
pub struct TextFile {
    /// The name, with a stand-in for what is not UTF-8.
    pub name: String,
    /// The bytes of the name, by which the files are ordered.
    pub bytes: Vec<u8>,
    /// Whether the whole name is UTF-8.
    pub utf8: bool,
    /// The contents, where they could be read.
    pub contents: Option<String>,
    /// When the file was last modified, in seconds and nanoseconds since the
    /// epoch, where the system tells a time after it.
    pub mtime: Option<(u64, u32)>,
}

/// What a [`TextFile`] says.
pub struct TextFileView {
    pub name: Seq<char>,
    pub bytes: Seq<u8>,
    pub utf8: bool,
    pub contents: Option<Seq<char>>,
    pub mtime: Option<(u64, u32)>,
}

impl View for TextFile {
    type V = TextFileView;

    open spec fn view(&self) -> TextFileView {
        TextFileView {
            name: self.name@,
            bytes: self.bytes@,
            utf8: self.utf8,
            contents: text::opt_view(self.contents),
            mtime: self.mtime,
        }
    }
}

impl Ordered for TextFile {
    open spec fn less(a: TextFileView, b: TextFileView) -> bool {
        order::bytes_less(a.bytes, b.bytes)
    }

    fn before(&self, other: &Self) -> (r: bool) {
        bytes_before(self.bytes.as_slice(), other.bytes.as_slice())
    }
}

/// Whether the extension of a file name is `prom`.
pub open spec fn is_prom(name: Seq<char>) -> bool {
    name.len() > ".prom"@.len() && name.skip(name.len() - ".prom"@.len()) == ".prom"@
}

/// Tells whether the extension of a file name is `prom`.
pub fn is_prom_file(name: &str) -> (r: bool)
    ensures
        r == is_prom(name@),
{
    let chars = chars_of(name);
    let n = chars_of(".prom").len();
    if chars.len() <= n {
        return false;
    }
    same(slice_subrange(chars.as_slice(), chars.len() - n, chars.len()), ".prom")
}

/// The files that count.
pub open spec fn prom_files(files: Seq<TextFileView>) -> Seq<TextFileView>
    decreases files.len(),
{
    if files.len() == 0 {
        seq![]
    } else if is_prom(files.last().name) {
        prom_files(files.drop_last()).push(files.last())
    } else {
        prom_files(files.drop_last())
    }
}

/// The families of a file, where it can be read and parsed.
pub open spec fn file_families(file: TextFileView) -> Option<Seq<MetricView<ValueView>>> {
    match file.contents {
        Some(raw) => match exposition(raw) {
            Ok(families) => Some(families),
            Err(_) => None,
        },
        None => None,
    }
}

/// The families of the files, one file after the other.
pub open spec fn merged_files(files: Seq<TextFileView>) -> Seq<MetricView<ValueView>>
    decreases files.len(),
{
    if files.len() == 0 {
        seq![]
    } else {
        let before = merged_files(files.drop_last());
        match file_families(files.last()) {
            Some(families) => merged(before, families),
            None => before,
        }
    }
}

/// When a file was last modified. Only a file that was parsed counts.
pub open spec fn mtime_sample() -> spec_fn(TextFileView) -> Seq<SampleView<ValueView>> {
    |file: TextFileView|
        if file_families(file) is Some && file.mtime is Some {
            seq![
                SampleView::new(
                    ValueView::span((file.mtime->0).0, (file.mtime->0).1),
                ).with_label(
                    "file"@,
                    if file.utf8 {
                        file.name
                    } else {
                        seq![]
                    },
                ),
            ]
        } else {
            seq![]
        }
}

/// Whether a file could not be read or parsed.
pub open spec fn any_failed(files: Seq<TextFileView>) -> bool {
    exists|i: int| 0 <= i < files.len() && file_families(#[trigger] files[i]) is None
}

pub open spec fn mtime_family() -> MetricView<ValueView> {
    MetricView::new(
        "node_textfile_mtime_seconds"@,
        "Unixtime mtime of textfiles successfully read."@,
        MetricType::Gauge,
    )
}

pub open spec fn scrape_error(yes: bool) -> MetricView<ValueView> {
    MetricView::single(
        "node_textfile_scrape_error"@,
        "1 if there was an error opening or reading a file, 0 otherwise."@,
        MetricType::Gauge,
        ValueView::flag(yes),
    )
}

/// The metrics of the files of a directory, which are taken in the order of
/// their names' bytes.
pub open spec fn directory_families(files: Seq<TextFileView>) -> Seq<MetricView<ValueView>> {
    let files = order::sorted(prom_files(files), order::order_of::<TextFile>());
    merged_files(files).push(
        mtime_family().with_samples(rows::per_row(files, mtime_sample())),
    ).push(scrape_error(any_failed(files)))
}

/// What a listing says.
pub open spec fn listing_view(files: Option<Vec<TextFile>>) -> Option<Seq<TextFileView>> {
    match files {
        Some(files) => Some(order::views(files@)),
        None => None,
    }
}

/// The metrics of a directory; `None` stands for one that cannot be listed.
pub open spec fn directory_metrics(files: Option<Seq<TextFileView>>) -> Seq<
    MetricView<ValueView>,
> {
    match files {
        Some(files) => directory_families(files),
        None => seq![scrape_error(true)],
    }
}

fn scrape_error_metric(yes: bool) -> (r: Metric<Value>)
    ensures
        r@ == scrape_error(yes),
{
    Metric::single(
        "node_textfile_scrape_error",
        "1 if there was an error opening or reading a file, 0 otherwise.",
        MetricType::Gauge,
        Value::flag(yes),
    )
}

fn pick(files: Vec<TextFile>) -> (r: Vec<TextFile>)
    ensures
        order::views(r@) == order::sorted(
            prom_files(order::views(files@)),
            order::order_of::<TextFile>(),
        ),
{
    let ghost all = order::views(files@);
    let mut out: Vec<TextFile> = Vec::new();
    assert(order::views(out@) =~= seq![]);
    for file in it: files
        invariant
            all == order::views(files@),
            it.seq() == files@,
            order::views(out@) == prom_files(all.take(it.index())),
    {
        proof {
            assert(all[it.index()] == file@);
            assert(all.take(it.index() + 1).drop_last() =~= all.take(it.index()));
        }
        let ghost before = order::views(out@);
        if is_prom_file(file.name.as_str()) {
            out.push(file);
            assert(order::views(out@) =~= before.push(file@));
        }
    }
    assert(all.take(all.len() as int) =~= all);
    sort(out)
}

fn read_file(file: &TextFile) -> (r: Option<Vec<Metric<Value>>>)
    ensures
        match r {
            Some(families) => file_families(file@) == Some(metric::metric_views(families@)),
            None => file_families(file@) is None,
        },
{
    match &file.contents {
        Some(raw) => match parse_exposition(raw.as_str()) {
            Ok(families) => Some(families),
            Err(_) => None,
        },
        None => None,
    }
}

/// Gathers the metrics of a directory; `None` stands for one that cannot be
/// listed.
#[verifier::rlimit(60)]
pub fn collect_from_dir(files: Option<Vec<TextFile>>) -> (r: Vec<Metric<Value>>)
    ensures
        metric::metric_views(r@) == directory_metrics(listing_view(files)),
{
    let files = match files {
        Some(files) => pick(files),
        None => {
            let out = vec![scrape_error_metric(true)];
            assert(metric::metric_views(out@) =~= seq![scrape_error(true)]);
            return out;
        },
    };
    let ghost all = order::views(files@);
    let mut families: Vec<Metric<Value>> = Vec::new();
    let mut mtime = Metric::new(
        "node_textfile_mtime_seconds",
        "Unixtime mtime of textfiles successfully read.",
        MetricType::Gauge,
    );
    let mut had_error = false;
    let mut i: usize = 0;
    assert(metric::metric_views(families@) =~= seq![]);
    assert(rows::per_row(all.take(0), mtime_sample()) =~= seq![]);
    while i < files.len()
        invariant
            i <= files@.len(),
            all == order::views(files@),
            metric::metric_views(families@) == merged_files(all.take(i as int)),
            mtime@ == mtime_family().with_samples(
                rows::per_row(all.take(i as int), mtime_sample()),
            ),
            had_error == any_failed(all.take(i as int)),
        decreases files@.len() - i,
    {
        let file = &files[i];
        let ghost done = rows::per_row(all.take(i as int), mtime_sample());
        let ghost taken = all.take(i + 1);
        proof {
            assert(taken.drop_last() =~= all.take(i as int));
            assert(all[i as int] == file@);
            assert(taken[i as int] == file@);
            if had_error {
                let k = choose|k: int|
                    0 <= k < all.take(i as int).len() && file_families(
                        #[trigger] all.take(i as int)[k],
                    ) is None;
                assert(taken[k] == all.take(i as int)[k]);
            }
            if any_failed(taken) && file_families(file@) is Some {
                let k = choose|k: int|
                    0 <= k < taken.len() && file_families(#[trigger] taken[k]) is None;
                assert(taken[k] == all.take(i as int)[k]);
            }
        }
        match read_file(file) {
            Some(parsed) => {
                merge_families(&mut families, parsed);
                match file.mtime {
                    Some((secs, nanos)) => {
                        let label = if file.utf8 {
                            file.name.as_str()
                        } else {
                            ""
                        };
                        let s = Sample::new(Value::span(secs, nanos)).with_label("file", label);
                        mtime.push(s);
                        proof {
                            reveal_strlit("");
                            assert(""@ =~= seq![]);
                            assert(done.push(s@) =~= done + seq![s@]);
                        }
                    },
                    None => {
                        assert(done =~= done + seq![]);
                    },
                }
            },
            None => {
                had_error = true;
                assert(done =~= done + seq![]);
            },
        }
        i = i + 1;
    }
    assert(all.take(all.len() as int) =~= all);
    let ghost before = metric::metric_views(families@);
    let error = scrape_error_metric(had_error);
    families.push(mtime);
    families.push(error);
    assert(metric::metric_views(families@) =~= before.push(mtime@).push(error@));
    families
}

pub struct TextfileCollector;

impl TextfileCollector {
    pub fn name(&self) -> (r: &'static str)
        ensures
            r@ == "textfile"@,
    {
        "textfile"
    }

    /// The metrics, given the files of the configured directory, or `None`
    /// where it cannot be listed.
    pub fn collect(&self, cfg: &Config, files: Option<Vec<TextFile>>) -> (r: Result<
        Vec<Metric<Value>>,
        Error,
    >)
        ensures
            metric::outcome(r) == Ok::<_, Seq<char>>(
                if cfg.textfile_directory is Some {
                    directory_metrics(listing_view(files))
                } else {
                    seq![]
                },
            ),
    {
        if cfg.textfile_directory.is_none() {
            let none: Vec<Metric<Value>> = Vec::new();
            assert(metric::metric_views(none@) =~= seq![]);
            return Ok(none);
        }
        Ok(collect_from_dir(files))
    }
}

// ------------------------------------------------------------------------ laws

/// Every family of a file comes once.
pub proof fn families_have_distinct_names(lines: Seq<LineView>)
    ensures
        metric::distinct_names(families_of(lines)),
    decreases lines.len(),
{
    if lines.len() > 0 {
        families_have_distinct_names(lines.drop_last());
        let before = families_of(lines.drop_last());
        let name = line_name(lines.last());
        metric::lemma_family_index_meaning(before, name);
        let all = ensured(before, name);
        let after = families_of(lines);
        assert forall|i: int, j: int| 0 <= i < j < after.len() implies (#[trigger] after[i]).name
            != (#[trigger] after[j]).name by {
            assert(after[i].name == all[i].name && after[j].name == all[j].name);
            if j < before.len() {
                assert(all[i] == before[i] && all[j] == before[j]);
            } else {
                assert(all[i] == before[i]);
            }
        }
    }
}

proof fn lemma_merged_distinct(
    into: Seq<MetricView<ValueView>>,
    fresh: Seq<MetricView<ValueView>>,
)
    requires
        metric::distinct_names(into),
    ensures
        metric::distinct_names(merged(into, fresh)),
    decreases fresh.len(),
{
    if fresh.len() > 0 {
        lemma_merged_distinct(into, fresh.drop_last());
        let before = merged(into, fresh.drop_last());
        metric::lemma_family_index_meaning(before, fresh.last().name);
        let after = merged(into, fresh);
        assert forall|i: int, j: int| 0 <= i < j < after.len() implies (#[trigger] after[i]).name
            != (#[trigger] after[j]).name by {
            if j < before.len() {
                assert(after[i].name == before[i].name && after[j].name == before[j].name);
            } else {
                assert(after[i] == before[i]);
            }
        }
    }
}

/// Every family of the files together comes once.
pub proof fn merged_families_have_distinct_names(files: Seq<TextFileView>)
    ensures
        metric::distinct_names(merged_files(files)),
    decreases files.len(),
{
    if files.len() > 0 {
        merged_families_have_distinct_names(files.drop_last());
        match file_families(files.last()) {
            Some(families) => {
                lemma_merged_distinct(merged_files(files.drop_last()), families);
            },
            None => {},
        }
    }
}

proof fn lemma_file_order()
    ensures
        order::is_order(order::order_of::<TextFile>()),
{
    order::byte_order_is_order();
    let less = order::order_of::<TextFile>();
    let byte = order::byte_order();
    assert forall|a: TextFileView| !#[trigger] less(a, a) by {
        assert(!byte(a.bytes, a.bytes));
    }
    assert forall|a: TextFileView, b: TextFileView, c: TextFileView| #[trigger]
        less(a, b) && #[trigger] less(b, c) implies less(a, c) by {
        assert(byte(a.bytes, b.bytes) && byte(b.bytes, c.bytes));
        assert(byte(a.bytes, c.bytes));
    }
    assert forall|a: TextFileView, b: TextFileView, c: TextFileView|
        !#[trigger] less(a, b) && !#[trigger] less(b, c) implies !less(a, c) by {
        assert(!byte(a.bytes, b.bytes) && !byte(b.bytes, c.bytes));
        assert(!byte(a.bytes, c.bytes));
    }
}

proof fn lemma_prom_files_without(files: Seq<TextFileView>, i: int) -> (k: int)
    requires
        0 <= i < files.len(),
    ensures
        if is_prom(files[i].name) {
            0 <= k < prom_files(files).len() && prom_files(files)[k] == files[i] && prom_files(
                files,
            ).remove(k) == prom_files(files.remove(i))
        } else {
            prom_files(files) == prom_files(files.remove(i))
        },
    decreases files.len(),
{
    let front = files.drop_last();
    let before = prom_files(front);
    if i == files.len() - 1 {
        assert(files.remove(i) =~= front);
        assert(before.push(files.last()).remove(before.len() as int) =~= before);
        before.len() as int
    } else {
        let k = lemma_prom_files_without(front, i);
        let fewer = files.remove(i);
        assert(front[i] == files[i]);
        assert(fewer.drop_last() =~= front.remove(i));
        assert(fewer.last() == files.last());
        if is_prom(files[i].name) && is_prom(files.last().name) {
            assert(before.push(files.last()).remove(k) =~= before.remove(k).push(files.last()));
            assert(before.push(files.last())[k] == before[k]);
        }
        k
    }
}

proof fn lemma_merged_files_insert(files: Seq<TextFileView>, k: int, x: TextFileView)
    requires
        0 <= k <= files.len(),
        file_families(x) is None,
    ensures
        merged_files(files.insert(k, x)) == merged_files(files),
    decreases files.len(),
{
    let more = files.insert(k, x);
    if k == files.len() {
        assert(more.drop_last() =~= files);
    } else {
        lemma_merged_files_insert(files.drop_last(), k, x);
        assert(more.drop_last() =~= files.drop_last().insert(k, x));
        assert(more.last() == files.last());
    }
}

/// A file that cannot be read or parsed marks the scrape as faulty, and takes
/// nothing away from the others.
pub proof fn failed_files_only_mark_the_error(files: Seq<TextFileView>, i: int)
    requires
        0 <= i < files.len(),
        is_prom(files[i].name),
        file_families(files[i]) is None,
    ensures
        directory_families(files) == directory_families(files.remove(i)).drop_last().push(
            scrape_error(true),
        ),
{
    let less = order::order_of::<TextFile>();
    lemma_file_order();
    let k = lemma_prom_files_without(files, i);
    let all = prom_files(files);
    let p = order::sorting_without(all, k, less);
    let others = order::sorted(all.remove(k), less);
    let together = order::sorted(all, less);
    lemma_merged_files_insert(others, p, files[i]);
    rows::lemma_per_row_insert(others, mtime_sample(), p, files[i]);
    assert(together[p] == files[i]);
    assert(any_failed(together));
    assert(directory_families(files) =~= directory_families(files.remove(i)).drop_last().push(
        scrape_error(true),
    ));
}

/// An entry whose extension is not `prom` is ignored.
pub proof fn other_files_are_ignored(files: Seq<TextFileView>, i: int)
    requires
        0 <= i < files.len(),
        !is_prom(files[i].name),
    ensures
        directory_families(files) == directory_families(files.remove(i)),
{
    let k = lemma_prom_files_without(files, i);
}

/// A name keeps the help text and the type of the first file that has it, and
/// the samples that it had stay ahead of those that join them.
pub proof fn first_definition_is_kept(
    into: Seq<MetricView<ValueView>>,
    fresh: Seq<MetricView<ValueView>>,
    i: int,
)
    requires
        0 <= i < into.len(),
    ensures
        i < merged(into, fresh).len(),
        merged(into, fresh)[i].name == into[i].name,
        merged(into, fresh)[i].help == into[i].help,
        merged(into, fresh)[i].mtype == into[i].mtype,
        into[i].samples.is_prefix_of(merged(into, fresh)[i].samples),
    decreases fresh.len(),
{
    if fresh.len() > 0 {
        first_definition_is_kept(into, fresh.drop_last(), i);
        let before = merged(into, fresh.drop_last());
        metric::lemma_family_index_meaning(before, fresh.last().name);
        assert(into[i].samples.is_prefix_of(merged(into, fresh)[i].samples));
    }
}

proof fn lemma_prom_files_contain(files: Seq<TextFileView>, file: TextFileView)
    ensures
        prom_files(files).contains(file) == (files.contains(file) && is_prom(file.name)),
    decreases files.len(),
{
    if files.len() > 0 {
        let front = files.drop_last();
        let before = prom_files(front);
        lemma_prom_files_contain(front, file);
        assert(files =~= front.push(files.last()));
        assert(front.push(files.last()).contains(file) == (front.contains(file) || files.last()
            == file)) by {
            broadcast use vstd::seq_lib::group_seq_properties;

        }
        assert(before.push(files.last()).contains(file) == (before.contains(file) || files.last()
            == file)) by {
            broadcast use vstd::seq_lib::group_seq_properties;

        }
    }
}

/// The scrape error is 1 when any of the files that count failed to read or
/// parse, otherwise 0.
pub proof fn error_tells_of_any_failure(files: Seq<TextFileView>)
    ensures
        directory_families(files).last() == scrape_error(
            exists|i: int|
                0 <= i < files.len() && is_prom((#[trigger] files[i]).name) && file_families(
                    files[i],
                ) is None,
        ),
{
    let less = order::order_of::<TextFile>();
    lemma_file_order();
    let all = prom_files(files);
    let together = order::sorted(all, less);
    order::sorting_orders(all, less);
    broadcast use vstd::seq_lib::group_to_multiset_ensures;

    assert forall|file: TextFileView| #[trigger] together.contains(file) == (files.contains(file)
        && is_prom(file.name)) by {
        lemma_prom_files_contain(files, file);
        assert(together.to_multiset().count(file) == all.to_multiset().count(file));
    }
    if any_failed(together) {
        let k = choose|k: int|
            0 <= k < together.len() && file_families(#[trigger] together[k]) is None;
        assert(together.contains(together[k]));
    }
    assert forall|i: int|
        0 <= i < files.len() && is_prom((#[trigger] files[i]).name) && file_families(
            files[i],
        ) is None implies any_failed(together) by {
        assert(together.contains(files[i]));
    }
}

proof fn lemma_prom_files_same(a: Seq<TextFileView>, b: Seq<TextFileView>)
    requires
        a.to_multiset() == b.to_multiset(),
    ensures
        prom_files(a).to_multiset() == prom_files(b).to_multiset(),
    decreases a.len(),
{
    broadcast use vstd::seq_lib::group_to_multiset_ensures;

    assert(a.to_multiset().len() == a.len() && b.to_multiset().len() == b.len());
    if a.len() > 0 {
        let last = a.len() - 1;
        let i = order::lemma_same_without(a, b, last);
        lemma_prom_files_same(a.remove(last), b.remove(i));
        let j = lemma_prom_files_without(a, last);
        let k = lemma_prom_files_without(b, i);
        if is_prom(a[last].name) {
            order::lemma_restored(prom_files(a), j);
            order::lemma_restored(prom_files(b), k);
        }
    } else {
        assert(a =~= b);
    }
}

/// The order in which the directory lists the files does not matter.
pub proof fn listing_order_does_not_matter(a: Seq<TextFileView>, b: Seq<TextFileView>)
    requires
        a.to_multiset() == b.to_multiset(),
        forall|i: int, j: int|
            0 <= i < j < a.len() ==> (#[trigger] a[i]).bytes != (#[trigger] a[j]).bytes,
    ensures
        directory_families(a) == directory_families(b),
{
    let less = order::order_of::<TextFile>();
    lemma_file_order();
    lemma_prom_files_same(a, b);
    lemma_prom_names_differ(a);
    let files = prom_files(a);
    assert forall|i: int, j: int| 0 <= i < j < files.len() implies less(
        #[trigger] files[i],
        #[trigger] files[j],
    ) || less(files[j], files[i]) by {
        order::lemma_bytes_less_total(files[i].bytes, files[j].bytes);
    }
    order::sorting_ignores_order(files, prom_files(b), less);
}

proof fn lemma_prom_names_differ(files: Seq<TextFileView>)
    requires
        forall|i: int, j: int|
            0 <= i < j < files.len() ==> (#[trigger] files[i]).bytes != (#[trigger] files[j]).bytes,
    ensures
        forall|i: int, j: int|
            0 <= i < j < prom_files(files).len() ==> (#[trigger] prom_files(files)[i]).bytes != (
            #[trigger] prom_files(files)[j]).bytes,
    decreases files.len(),
{
    if files.len() > 0 {
        let front = files.drop_last();
        assert forall|i: int, j: int| 0 <= i < j < front.len() implies (#[trigger] front[i]).bytes
            != (#[trigger] front[j]).bytes by {
            assert(front[i] == files[i] && front[j] == files[j]);
        }
        lemma_prom_names_differ(front);
        let before = prom_files(front);
        assert forall|i: int| 0 <= i < before.len() implies (#[trigger] before[i]).bytes
            != files.last().bytes by {
            lemma_prom_files_contain(front, before[i]);
            assert(before.contains(before[i]));
            let k = choose|k: int| 0 <= k < front.len() && front[k] == before[i];
            assert(files[k] == front[k]);
        }
    }
}

/// The samples of the sample lines of that name, in the order of the lines.
pub open spec fn samples_named(lines: Seq<LineView>, name: Seq<char>) -> Seq<
    SampleView<ValueView>,
> {
    lines.filter_map(
        |line: LineView|
            match line {
                LineView::Sample(n, sample) => if n == name {
                    Some(sample)
                } else {
                    None
                },
                _ => None,
            },
    )
}

/// The texts of the help lines of that name, in the order of the lines.
pub open spec fn helps_named(lines: Seq<LineView>, name: Seq<char>) -> Seq<Seq<char>> {
    lines.filter_map(
        |line: LineView|
            match line {
                LineView::Help(n, help) => if n == name {
                    Some(help)
                } else {
                    None
                },
                _ => None,
            },
    )
}

/// The types of the type lines of that name, in the order of the lines.
pub open spec fn types_named(lines: Seq<LineView>, name: Seq<char>) -> Seq<MetricType> {
    lines.filter_map(
        |line: LineView|
            match line {
                LineView::Type(n, mtype) => if n == name {
                    Some(mtype)
                } else {
                    None
                },
                _ => None,
            },
    )
}

/// The samples of all sample lines.
pub open spec fn samples_of_lines(lines: Seq<LineView>) -> Seq<SampleView<ValueView>> {
    lines.filter_map(
        |line: LineView|
            match line {
                LineView::Sample(_, sample) => Some(sample),
                _ => None,
            },
    )
}

/// The number of samples of all the families together.
pub open spec fn sample_count<V>(families: Seq<MetricView<V>>) -> nat
    decreases families.len(),
{
    if families.len() == 0 {
        0
    } else {
        sample_count(families.drop_last()) + families.last().samples.len()
    }
}

/// Whether a line is about the family of that name.
pub open spec fn is_named(lines: Seq<LineView>, name: Seq<char>) -> bool {
    exists|k: int| 0 <= k < lines.len() && line_name(#[trigger] lines[k]) == name
}

proof fn lemma_told_of(lines: Seq<LineView>, name: Seq<char>)
    ensures
        ({
            let families = families_of(lines);
            let i = metric::family_index(families, name);
            &&& i < families.len() <==> is_named(lines, name)
            &&& i < families.len() ==> {
                &&& families[i].samples == samples_named(lines, name)
                &&& families[i].help == if helps_named(lines, name).len() > 0 {
                    helps_named(lines, name).last()
                } else {
                    seq![]
                }
                &&& families[i].mtype == if types_named(lines, name).len() > 0 {
                    types_named(lines, name).last()
                } else {
                    MetricType::Untyped
                }
            }
            &&& i == families.len() ==> samples_named(lines, name).len() == 0 && helps_named(
                lines,
                name,
            ).len() == 0 && types_named(lines, name).len() == 0
        }),
    decreases lines.len(),
{
    let families = families_of(lines);
    if lines.len() > 0 {
        let front = lines.drop_last();
        let last = lines.last();
        let before = families_of(front);
        let all = ensured(before, line_name(last));
        let j = metric::family_index(before, line_name(last));
        let i = metric::family_index(before, name);
        lemma_told_of(front, name);
        lemma_told_of(front, line_name(last));
        metric::lemma_family_index_meaning(before, name);
        metric::lemma_family_index_meaning(before, line_name(last));
        assert(lines[lines.len() - 1] == last);
        if is_named(front, name) {
            let k = choose|k: int| 0 <= k < front.len() && line_name(#[trigger] front[k]) == name;
            assert(line_name(lines[k]) == name);
        }
        assert forall|k: int| 0 <= k < front.len() implies front[k] == #[trigger] lines[k] by {}
        if is_named(lines, name) && line_name(last) != name {
            let k = choose|k: int| 0 <= k < lines.len() && line_name(#[trigger] lines[k]) == name;
            assert(line_name(front[k]) == name);
        }
        assert forall|k: int| 0 <= k < families.len() implies (#[trigger] families[k]).name
            == all[k].name by {}
        if line_name(last) == name {
            metric::lemma_family_index(families, name, j);
        } else if i < before.len() {
            assert(all[i] == before[i]);
            metric::lemma_family_index(families, name, i);
            assert(families[i] == before[i]);
        } else {
            metric::lemma_family_index(families, name, families.len() as int);
        }
    }
}

/// The family of a name holds the samples of all the sample lines of that name,
/// in the order of the lines and wherever they stand, and its help text and type
/// are those of its last help and type lines.
pub proof fn families_gather_their_lines(lines: Seq<LineView>, i: int)
    requires
        0 <= i < families_of(lines).len(),
    ensures
        ({
            let family = families_of(lines)[i];
            let helps = helps_named(lines, family.name);
            let types = types_named(lines, family.name);
            &&& family.samples == samples_named(lines, family.name)
            &&& family.help == if helps.len() > 0 {
                helps.last()
            } else {
                seq![]
            }
            &&& family.mtype == if types.len() > 0 {
                types.last()
            } else {
                MetricType::Untyped
            }
        }),
{
    let families = families_of(lines);
    let name = families[i].name;
    families_have_distinct_names(lines);
    assert forall|j: int| 0 <= j < i implies (#[trigger] families[j]).name != name by {}
    metric::lemma_family_index(families, name, i);
    lemma_told_of(lines, name);
}

/// There is a family for each name that a line is about, and for no other. The
/// families come in the order in which they are first named: the result is the
/// positions of the lines that first name them.
pub proof fn families_come_as_first_named(lines: Seq<LineView>) -> (at: Seq<int>)
    ensures
        at.len() == families_of(lines).len(),
        forall|i: int|
            0 <= i < at.len() ==> 0 <= #[trigger] at[i] < lines.len() && line_name(lines[at[i]])
                == families_of(lines)[i].name,
        forall|i: int, j: int| 0 <= i < j < at.len() ==> #[trigger] at[i] < #[trigger] at[j],
        forall|k: int|
            0 <= k < lines.len() ==> (at.contains(k) <==> #[trigger] names_first(lines, k)),
    decreases lines.len(),
{
    if lines.len() == 0 {
        Seq::<int>::empty()
    } else {
        let n = lines.len() - 1;
        let front = lines.drop_last();
        let last = lines.last();
        let name = line_name(last);
        let before = families_of(front);
        let families = families_of(lines);
        let all = ensured(before, name);
        let earlier = families_come_as_first_named(front);
        metric::lemma_family_index_meaning(before, name);
        lemma_told_of(front, name);
        let j = metric::family_index(before, name);
        assert forall|k: int| 0 <= k < families.len() implies (#[trigger] families[k]).name
            == all[k].name by {}
        let at = if j < before.len() {
            earlier
        } else {
            earlier.push(n)
        };
        assert(forall|k: int| 0 <= k < n ==> front[k] == #[trigger] lines[k]);
        assert forall|i: int| 0 <= i < at.len() implies 0 <= #[trigger] at[i] < lines.len()
            && line_name(lines[at[i]]) == families[i].name by {
            if i < earlier.len() {
                assert(at[i] == earlier[i]);
                assert(front[earlier[i]] == lines[earlier[i]]);
                assert(all[i] == before[i]);
            }
        }
        assert forall|a: int, b: int| 0 <= a < b < at.len() implies #[trigger] at[a]
            < #[trigger] at[b] by {
            assert(at[a] == earlier[a]);
            if b < earlier.len() {
                assert(at[b] == earlier[b]);
            }
        }
        assert forall|k: int| 0 <= k < lines.len() implies (at.contains(k)
            <==> #[trigger] names_first(lines, k)) by {
            if k < n {
                assert(earlier.contains(k) <==> names_first(front, k));
                assert(names_first(lines, k) <==> names_first(front, k)) by {
                    if names_first(lines, k) {
                        assert forall|m: int| 0 <= m < k implies line_name(#[trigger] front[m])
                            != line_name(front[k]) by {
                            assert(front[m] == lines[m]);
                        }
                    }
                    if names_first(front, k) {
                        assert forall|m: int| 0 <= m < k implies line_name(#[trigger] lines[m])
                            != line_name(lines[k]) by {
                            assert(front[m] == lines[m]);
                        }
                    }
                }
                if earlier.contains(k) {
                    let i = choose|i: int| 0 <= i < earlier.len() && earlier[i] == k;
                    assert(at[i] == k);
                }
                if at.contains(k) {
                    let i = choose|i: int| 0 <= i < at.len() && at[i] == k;
                    assert(earlier[i] == k);
                }
            } else if j < before.len() {
                let m = choose|m: int|
                    0 <= m < front.len() && line_name(#[trigger] front[m]) == name;
                assert(line_name(lines[m]) == line_name(lines[n]));
                if at.contains(n) {
                    let i = choose|i: int| 0 <= i < at.len() && at[i] == n;
                    assert(earlier[i] < n);
                }
            } else {
                assert forall|m: int| 0 <= m < n implies line_name(#[trigger] lines[m])
                    != line_name(lines[n]) by {
                    assert(front[m] == lines[m]);
                }
                assert(at[earlier.len() as int] == n);
            }
        }
        at
    }
}

/// Whether no earlier line is about the family that line `k` is about.
pub open spec fn names_first(lines: Seq<LineView>, k: int) -> bool {
    forall|m: int| 0 <= m < k ==> line_name(#[trigger] lines[m]) != line_name(lines[k])
}

proof fn lemma_count_updated<V>(families: Seq<MetricView<V>>, i: int, m: MetricView<V>)
    requires
        0 <= i < families.len(),
    ensures
        sample_count(families.update(i, m)) == sample_count(families) - families[i].samples.len()
            + m.samples.len(),
    decreases families.len(),
{
    let changed = families.update(i, m);
    let front = families.drop_last();
    if i < front.len() {
        lemma_count_updated(front, i, m);
        assert(changed.drop_last() =~= front.update(i, m));
        assert(changed.last() == families.last());
        assert(sample_count(changed) == sample_count(changed.drop_last())
            + changed.last().samples.len());
        assert(sample_count(families) == sample_count(front) + families.last().samples.len());
    } else {
        assert(changed.drop_last() =~= front);
        assert(changed.last() == m);
    }
}

/// No sample is lost and none is made up: there are as many in the families as
/// there are sample lines.
pub proof fn no_sample_is_lost(lines: Seq<LineView>)
    ensures
        sample_count(families_of(lines)) == samples_of_lines(lines).len(),
    decreases lines.len(),
{
    if lines.len() > 0 {
        let front = lines.drop_last();
        let last = lines.last();
        let before = families_of(front);
        let all = ensured(before, line_name(last));
        let i = metric::family_index(before, line_name(last));
        no_sample_is_lost(front);
        metric::lemma_family_index_meaning(before, line_name(last));
        if i == before.len() {
            assert(all.drop_last() =~= before);
            assert(all.last().samples.len() == 0);
        }
        assert(sample_count(all) == sample_count(before));
        lemma_count_updated(all, i, told(all[i], last));
    }
}

/// Of every file that parses, in whatever order its lines come: the family of a
/// name holds exactly the samples of the sample lines of that name, in the order
/// of the lines, with the help text and the type of its last help and type lines.
/// There are as many samples as sample lines. The result is what the lines say.
pub proof fn parsed_files_gather_their_lines(raw: Seq<char>) -> (said: Seq<LineView>)
    requires
        exposition(raw) is Ok,
    ensures
        ({
            let lines = text::lines(raw);
            let at = rows::positions(lines, |line: Seq<char>| !(exposition_row(0, line) is Skip));
            let families = exposition(raw)->Ok_0;
            &&& said.len() == at.len()
            &&& forall|i: int|
                #![trigger said[i]]
                0 <= i < at.len() ==> exposition_row(at[i], lines[at[i]]) == Row::Keep(said[i])
            &&& metric::distinct_names(families)
            &&& sample_count(families) == samples_of_lines(said).len()
            &&& forall|i: int|
                #![trigger families[i]]
                0 <= i < families.len() ==> {
                    let helps = helps_named(said, families[i].name);
                    let types = types_named(said, families[i].name);
                    &&& families[i].samples == samples_named(said, families[i].name)
                    &&& families[i].help == if helps.len() > 0 {
                        helps.last()
                    } else {
                        seq![]
                    }
                    &&& families[i].mtype == if types.len() > 0 {
                        types.last()
                    } else {
                        MetricType::Untyped
                    }
                }
        }),
{
    let lines = text::lines(raw);
    let row = exposition_row_at();
    let p = |line: Seq<char>| !(exposition_row(0, line) is Skip);
    let said = rows::rows(lines, row)->Ok_0;
    let at = rows::positions(lines, p);
    rows::kept_lines_are_the_rows(lines, row, p);
    assert forall|i: int| #![trigger said[i]] 0 <= i < at.len() implies exposition_row(
        at[i],
        lines[at[i]],
    ) == Row::Keep(said[i]) by {
        assert(row(at[i], lines[at[i]]) == Row::Keep(said[i]));
    }
    families_have_distinct_names(said);
    no_sample_is_lost(said);
    let families = exposition(raw)->Ok_0;
    assert forall|i: int| #![trigger families[i]] 0 <= i < families.len() implies {
        let helps = helps_named(said, families[i].name);
        let types = types_named(said, families[i].name);
        &&& families[i].samples == samples_named(said, families[i].name)
        &&& families[i].help == if helps.len() > 0 {
            helps.last()
        } else {
            seq![]
        }
        &&& families[i].mtype == if types.len() > 0 {
            types.last()
        } else {
            MetricType::Untyped
        }
    } by {
        families_gather_their_lines(said, i);
    }
    said
}

/// The samples of all the families of that name, in order.
pub open spec fn samples_under(families: Seq<MetricView<ValueView>>, name: Seq<char>) -> Seq<
    SampleView<ValueView>,
> {
    rows::per_row(
        families,
        |m: MetricView<ValueView>|
            if m.name == name {
                m.samples
            } else {
                seq![]
            },
    )
}

/// The families of that name.
pub open spec fn families_under(families: Seq<MetricView<ValueView>>, name: Seq<char>) -> Seq<
    MetricView<ValueView>,
> {
    families.filter_map(
        |m: MetricView<ValueView>|
            if m.name == name {
                Some(m)
            } else {
                None
            },
    )
}

/// The families of the files, file after file. A file that could not be read or
/// parsed has none.
pub open spec fn families_of_files(files: Seq<TextFileView>) -> Seq<MetricView<ValueView>> {
    rows::per_row(
        files,
        |file: TextFileView|
            match file_families(file) {
                Some(families) => families,
                None => seq![],
            },
    )
}

proof fn lemma_merged_under(fresh: Seq<MetricView<ValueView>>, name: Seq<char>)
    ensures
        ({
            let all = merged(seq![], fresh);
            let i = metric::family_index(all, name);
            let own = families_under(fresh, name);
            &&& i < all.len() <==> own.len() > 0
            &&& i < all.len() ==> all[i].name == name && all[i].samples == samples_under(
                fresh,
                name,
            ) && all[i].help == own[0].help && all[i].mtype == own[0].mtype
            &&& i == all.len() ==> samples_under(fresh, name).len() == 0
        }),
    decreases fresh.len(),
{
    let all = merged(seq![], fresh);
    if fresh.len() > 0 {
        let front = fresh.drop_last();
        let last = fresh.last();
        let before = merged(seq![], front);
        lemma_merged_under(front, name);
        lemma_merged_under(front, last.name);
        metric::lemma_family_index_meaning(before, name);
        metric::lemma_family_index_meaning(before, last.name);
        let i = metric::family_index(before, name);
        let j = metric::family_index(before, last.name);
        let had = samples_under(front, name);
        let own = families_under(front, name);
        assert forall|k: int| 0 <= k < before.len() implies (#[trigger] all[k]).name
            == before[k].name by {}
        if last.name == name {
            metric::lemma_family_index(all, name, j);
            if j == before.len() {
                assert(had =~= seq![]);
                assert(had + last.samples =~= last.samples);
                assert(own =~= seq![]);
                assert(own + seq![last] =~= seq![last]);
            } else {
                assert((own + seq![last])[0] == own[0]);
            }
        } else {
            assert(had + Seq::<SampleView<ValueView>>::empty() =~= had);
            if i < before.len() {
                metric::lemma_family_index(all, name, i);
                assert(all[i] == before[i]);
            } else {
                metric::lemma_family_index(all, name, all.len() as int);
            }
        }
    } else {
        assert(samples_under(fresh, name) =~= seq![]);
    }
}

proof fn lemma_merged_joins(
    into: Seq<MetricView<ValueView>>,
    a: Seq<MetricView<ValueView>>,
    b: Seq<MetricView<ValueView>>,
)
    ensures
        merged(merged(into, a), b) == merged(into, a + b),
    decreases b.len(),
{
    if b.len() == 0 {
        assert(a + b =~= a);
    } else {
        lemma_merged_joins(into, a, b.drop_last());
        assert((a + b).drop_last() =~= a + b.drop_last());
        assert((a + b).last() == b.last());
    }
}

proof fn lemma_merged_files(files: Seq<TextFileView>)
    ensures
        merged_files(files) == merged(seq![], families_of_files(files)),
    decreases files.len(),
{
    if files.len() > 0 {
        let front = files.drop_last();
        lemma_merged_files(front);
        let before = families_of_files(front);
        match file_families(files.last()) {
            Some(families) => {
                lemma_merged_joins(seq![], before, families);
            },
            None => {
                assert(before + Seq::<MetricView<ValueView>>::empty() =~= before);
            },
        }
    }
}

/// Files that share a name share its family: it holds the samples that each of
/// them has under the name, file after file, and the first says what it is. Every
/// name has a family, and no family is made up.
pub proof fn merged_families_gather_their_samples(files: Seq<TextFileView>, i: int)
    requires
        0 <= i < merged_files(files).len(),
    ensures
        ({
            let family = merged_files(files)[i];
            let own = families_under(families_of_files(files), family.name);
            &&& family.samples == samples_under(families_of_files(files), family.name)
            &&& own.len() > 0
            &&& family.help == own[0].help
            &&& family.mtype == own[0].mtype
        }),
{
    let all = merged_files(files);
    let name = all[i].name;
    lemma_merged_files(files);
    merged_families_have_distinct_names(files);
    assert forall|j: int| 0 <= j < i implies (#[trigger] all[j]).name != name by {}
    metric::lemma_family_index(all, name, i);
    lemma_merged_under(families_of_files(files), name);
}

/// No family of a file is lost when the files are merged.
pub proof fn merged_families_are_all_there(files: Seq<TextFileView>, k: int)
    requires
        0 <= k < families_of_files(files).len(),
    ensures
        ({
            let m = families_of_files(files)[k];
            let i = metric::family_index(merged_files(files), m.name);
            i < merged_files(files).len() && merged_files(files)[i].name == m.name
        }),
{
    let fresh = families_of_files(files);
    let m = fresh[k];
    let f = |x: MetricView<ValueView>|
        if x.name == m.name {
            Some(x)
        } else {
            None
        };
    lemma_merged_files(files);
    lemma_merged_under(fresh, m.name);
    rows::lemma_filter_map_holds(fresh, f, k);
}

proof fn lemma_count_merged(fresh: Seq<MetricView<ValueView>>)
    ensures
        sample_count(merged(seq![], fresh)) == sample_count(fresh),
    decreases fresh.len(),
{
    if fresh.len() > 0 {
        let front = fresh.drop_last();
        let last = fresh.last();
        let before = merged(seq![], front);
        lemma_count_merged(front);
        metric::lemma_family_index_meaning(before, last.name);
        let i = metric::family_index(before, last.name);
        if i < before.len() {
            lemma_count_updated(
                before,
                i,
                before[i].with_samples(before[i].samples + last.samples),
            );
        } else {
            assert(before.push(last).drop_last() =~= before);
        }
    }
}

/// No sample is lost when the files are merged, and none is made up.
pub proof fn merging_loses_no_sample(files: Seq<TextFileView>)
    ensures
        sample_count(merged_files(files)) == sample_count(families_of_files(files)),
{
    lemma_merged_files(files);
    lemma_count_merged(families_of_files(files));
}

/// A file counts where its name is something and then `.prom`.
pub proof fn prom_files_are_told_by_their_names(stem: Seq<char>, name: Seq<char>)
    ensures
        is_prom(stem + ".prom"@) <==> stem.len() > 0,
        is_prom(name) ==> name == name.take(name.len() - 5) + seq!['.', 'p', 'r', 'o', 'm'],
{
    reveal_strlit(".prom");
    let whole = stem + ".prom"@;
    assert(whole.skip(whole.len() - 5) =~= ".prom"@);
    if is_prom(name) {
        assert(".prom"@ =~= seq!['.', 'p', 'r', 'o', 'm']);
        assert(name =~= name.take(name.len() - 5) + name.skip(name.len() - 5));
    }
}

/// The files that count are all those of such names, in the order of the list.
pub proof fn prom_files_are_picked(files: Seq<TextFileView>)
    ensures
        prom_files(files) == files.filter_map(
            |file: TextFileView|
                if is_prom(file.name) {
                    Some(file)
                } else {
                    None
                },
        ),
    decreases files.len(),
{
    if files.len() > 0 {
        prom_files_are_picked(files.drop_last());
        let before = prom_files(files.drop_last());
        assert(before.push(files.last()) =~= before + seq![files.last()]);
    }
}

/// Every file that was parsed tells when it was last modified: seconds and
/// nanoseconds, under its own name, which is left out where it is not UTF-8.
pub proof fn every_parsed_file_tells_its_time(files: Seq<TextFileView>, i: int)
    requires
        forall|j: int|
            0 <= j < files.len() ==> is_prom((#[trigger] files[j]).name) && file_families(
                files[j],
            ) is Some && files[j].mtime is Some,
        0 <= i < files.len(),
    ensures
        ({
            let families = directory_families(files);
            let times = families[families.len() - 2];
            let file = order::sorted(files, order::order_of::<TextFile>())[i];
            let (seconds, nanoseconds) = file.mtime->0;
            &&& times.name == "node_textfile_mtime_seconds"@
            &&& times.samples.len() == files.len()
            &&& times.samples[i].labels == seq![
                (
                    "file"@,
                    if file.utf8 {
                        file.name
                    } else {
                        seq![]
                    },
                ),
            ]
            &&& quantity::stands_for(
                times.samples[i].value,
                seconds * 1_000_000_000 + nanoseconds,
                1_000_000_000,
            )
        }),
{
    let less = order::order_of::<TextFile>();
    let sorted = order::sorted(files, less);
    lemma_all_prom(files);
    lemma_file_order();
    order::sorting_orders(files, less);
    assert forall|j: int| 0 <= j < sorted.len() implies mtime_sample()(#[trigger] sorted[j]).len()
        == 1 by {
        sorted.to_multiset_ensures();
        files.to_multiset_ensures();
        assert(sorted.contains(sorted[j]));
        assert(files.to_multiset().count(sorted[j]) > 0);
        assert(files.contains(sorted[j]));
        let k = choose|k: int| 0 <= k < files.len() && files[k] == sorted[j];
        assert(file_families(files[k]) is Some);
    }
    rows::rows_of_equal_length(sorted, mtime_sample(), 1);
    let times = rows::per_row(sorted, mtime_sample());
    assert(rows::item_at(times, 1, i, 0) == mtime_sample()(sorted[i])[0]);
    assert(mtime_sample()(sorted[i]).len() == 1);
    let families = directory_families(files);
    assert(families[families.len() - 2].samples == times);
    let file = sorted[i];
    assert(times[i].labels =~= seq![
        (
            "file"@,
            if file.utf8 {
                file.name
            } else {
                seq![]
            },
        ),
    ]);
}

proof fn lemma_all_prom(files: Seq<TextFileView>)
    requires
        forall|j: int| 0 <= j < files.len() ==> is_prom((#[trigger] files[j]).name),
    ensures
        prom_files(files) == files,
    decreases files.len(),
{
    if files.len() > 0 {
        let front = files.drop_last();
        assert forall|j: int| 0 <= j < front.len() implies is_prom((#[trigger] front[j]).name) by {
            assert(front[j] == files[j]);
        }
        lemma_all_prom(front);
        assert(is_prom(files[files.len() - 1].name));
        assert(front.push(files.last()) =~= files);
    } else {
        assert(prom_files(files) =~= files);
    }
}

/// Whether `s` is all white space.
pub open spec fn is_blank(s: Seq<char>) -> bool {
    forall|i: int| 0 <= i < s.len() ==> text::is_space(#[trigger] s[i])
}

/// Whether `s` is all ASCII white space.
pub open spec fn is_gap(s: Seq<char>) -> bool {
    forall|i: int| 0 <= i < s.len() ==> text::is_ascii_space(#[trigger] s[i])
}

/// A line of white space says nothing, and white space round a line does not
/// matter.
pub proof fn blanks_say_nothing(i: int, a: Seq<char>, t: Seq<char>, b: Seq<char>)
    requires
        is_blank(a),
        is_blank(b),
        t.len() > 0 ==> !text::is_space(t[0]) && !text::is_space(t.last()),
    ensures
        t.len() == 0 ==> exposition_row(i, a + t + b) == Row::<LineView>::Skip,
        exposition_row(i, a + t + b) == exposition_row(i, t),
{
    let none = Seq::<char>::empty();
    text::ends_are_trimmed(a, t, b);
    text::ends_are_trimmed(none, t, none);
    assert(none + t + none =~= t);
}

/// A line that starts with `#` says nothing unless `HELP` or `TYPE` follows.
#[verifier::spinoff_prover]
#[verifier::rlimit(60)]
pub proof fn comments_say_nothing(i: int, gap: Seq<char>, word: Seq<char>, tail: Seq<char>)
    requires
        is_blank(gap),
        forall|j: int| 0 <= j < word.len() ==> !text::is_ascii_space(#[trigger] word[j]),
        word.len() > 0 && !text::is_space(word[0]),
        word != "HELP"@ && word != "TYPE"@,
        tail.len() == 0 || text::is_ascii_space(tail[0]),
        !text::is_space((seq!['#'] + gap + word + tail).last()),
    ensures
        exposition_row(i, seq!['#'] + gap + word + tail) == Row::<LineView>::Skip,
{
    let line = seq!['#'] + gap + word + tail;
    let none = Seq::<char>::empty();
    text::ends_are_trimmed(none, line, none);
    assert(none + line + none =~= line);
    let rest = line.skip(1);
    assert(rest =~= gap + (word + tail));
    lemma_first_word(gap, word, tail);
}

/// The first word of `gap + word + tail`.
proof fn lemma_first_word(gap: Seq<char>, word: Seq<char>, tail: Seq<char>)
    requires
        is_blank(gap),
        forall|j: int| 0 <= j < word.len() ==> !text::is_ascii_space(#[trigger] word[j]),
        word.len() > 0 && !text::is_space(word[0]),
        tail.len() == 0 || text::is_ascii_space(tail[0]),
    ensures
        tail.len() == 0 ==> split_once(gap + (word + tail)) is None,
        tail.len() > 0 ==> split_once(gap + (word + tail)) == Some((word, text::trim_start(tail))),
{
    let rest = gap + (word + tail);
    let t = word + tail;
    let n = gap.len() as int;
    assert forall|j: int| 0 <= j < n implies text::blank()(#[trigger] rest[j]) by {
        assert(rest[j] == gap[j]);
    }
    assert(rest[n] == word[0]);
    text::lemma_run(rest, text::blank(), n);
    assert(rest.skip(n) =~= t);
    let k = word.len() as int;
    assert forall|j: int| 0 <= j < k implies text::word_char()(#[trigger] t[j]) by {
        assert(t[j] == word[j]);
    }
    if tail.len() > 0 {
        assert(t[k] == tail[0]);
    }
    text::lemma_run(t, text::word_char(), k);
    assert(t.take(k) =~= word);
    assert(t.skip(k) =~= tail);
}

/// What stands behind the name of a sample.
proof fn lemma_behind_name(name: Seq<char>, gap: Seq<char>, after: Seq<char>)
    requires
        forall|j: int|
            0 <= j < name.len() ==> !text::is_ascii_space(#[trigger] name[j]) && name[j] != '{',
        is_gap(gap),
        after.len() > 0,
        !text::is_ascii_space(after[0]),
        gap.len() > 0 || after[0] == '{',
    ensures
        ({
            let line = name + gap + after;
            let n = name.len() as int;
            &&& text::run(line, name_char()) == n
            &&& line.take(n) == name
            &&& after_spaces(line.skip(n)) == after
        }),
{
    let line = name + gap + after;
    let n = name.len() as int;
    let g = gap.len() as int;
    assert forall|j: int| 0 <= j < n implies name_char()(#[trigger] line[j]) by {
        assert(line[j] == name[j]);
    }
    if g > 0 {
        assert(line[n] == gap[0]);
    } else {
        assert(line[n] == after[0]);
    }
    text::lemma_run(line, name_char(), n);
    assert(line.take(n) =~= name);
    let behind = line.skip(n);
    assert(behind =~= gap + after);
    assert forall|j: int| 0 <= j < g implies text::separator()(#[trigger] behind[j]) by {
        assert(behind[j] == gap[j]);
    }
    assert(behind[g] == after[0]);
    text::lemma_run(behind, text::separator(), g);
    assert(behind.skip(g) =~= after);
}

/// A sample without labels is a name, white space and a value; a timestamp or
/// anything else behind white space does not matter.
#[verifier::spinoff_prover]
#[verifier::rlimit(60)]
pub proof fn plain_samples_are_read(
    i: int,
    name: Seq<char>,
    gap: Seq<char>,
    word: Seq<char>,
    tail: Seq<char>,
)
    requires
        name.len() > 0,
        forall|j: int|
            0 <= j < name.len() ==> !text::is_ascii_space(#[trigger] name[j]) && name[j] != '{',
        name[0] != '#' && !text::is_space(name[0]),
        gap.len() > 0,
        is_gap(gap),
        text::is_word(word),
        word[0] != '{',
        tail.len() == 0 || text::is_ascii_space(tail[0]),
        !text::is_space((name + gap + word + tail).last()),
    ensures
        match value_of(word) {
            Ok(value) => exposition_row(i, name + gap + word + tail) == Row::Keep(
                LineView::Sample(name, SampleView { labels: seq![], value }),
            ),
            Err(_) => exposition_row(i, name + gap + word + tail) is Fail,
        },
{
    let line = name + gap + word + tail;
    let after = word + tail;
    assert(line =~= name + gap + after);
    assert(line[0] == name[0]);
    assert(after[0] == word[0]);
    lemma_behind_name(name, gap, after);
    lemma_solid_line(i, line);
    if tail.len() > 0 {
        text::words_are_cut_at_blanks(word, tail[0], tail.skip(1));
        assert(after =~= word + seq![tail[0]] + tail.skip(1));
    } else {
        text::words_are_cut_at_blanks(word, ' ', seq![]);
        assert(after =~= word);
    }
    assert(text::words(after)[0] == word);
}

/// A word spells a value where it is a number or one of the words for what is
/// none. A number is taken as it is spelled.
pub proof fn values_are_numbers(word: Seq<char>)
    ensures
        number::is_float(word) && word != "nan"@ && word != "NaN"@ && word != "inf"@ && word
            != "Inf"@ && word != "+Inf"@ && word != "-Inf"@ && word != "-inf"@ ==> value_of(word)
            is Ok && quantity::spells_times(value_of(word)->Ok_0, word, 1, 1),
        word == "nan"@ || word == "NaN"@ ==> value_of(word) is Ok && value_of(word)->Ok_0.reading
            == ReadingView::NotANumber,
        word == "inf"@ || word == "Inf"@ || word == "+Inf"@ ==> value_of(word) is Ok && value_of(
            word,
        )->Ok_0.reading == ReadingView::Infinity,
        word == "-inf"@ || word == "-Inf"@ ==> value_of(word) is Ok && value_of(word)->Ok_0.reading
            == ReadingView::NegativeInfinity,
        value_of(word) is Ok ==> number::is_float(word),
{
    reveal_strlit("nan");
    reveal_strlit("NaN");
    reveal_strlit("inf");
    reveal_strlit("Inf");
    reveal_strlit("+Inf");
    reveal_strlit("-Inf");
    reveal_strlit("-inf");
    quantity::literals_are_scaled(word, Scale::Unit);
    assert(number::lower("NaN"@) =~= "nan"@);
    assert(number::lower("nan"@) =~= "nan"@);
    assert(number::lower("Inf"@) =~= "inf"@);
    assert(number::lower("inf"@) =~= "inf"@);
    assert("+Inf"@.skip(1) =~= "Inf"@);
    assert("-Inf"@.skip(1) =~= "Inf"@);
    assert("-inf"@.skip(1) =~= "inf"@);
    assert("nan"@[0] == 'n' && "NaN"@[0] == 'N' && "inf"@[0] == 'i' && "Inf"@[0] == 'I'
        && "+Inf"@[0] == '+' && "-Inf"@[0] == '-' && "-inf"@[0] == '-');
}

/// The word behind a family's name says its type, with white space round it or
/// not. What is neither a counter nor a gauge is untyped.
pub proof fn types_are_told_by_their_words(a: Seq<char>, word: Seq<char>, b: Seq<char>)
    requires
        is_blank(a),
        is_blank(b),
        word.len() > 0 && !text::is_space(word[0]) && !text::is_space(word.last()),
    ensures
        type_of(a + word + b) == MetricType::Counter <==> word == "counter"@,
        type_of(a + word + b) == MetricType::Gauge <==> word == "gauge"@,
{
    text::ends_are_trimmed(a, word, b);
    reveal_strlit("counter");
    reveal_strlit("gauge");
    assert("counter"@.len() == 7 && "gauge"@.len() == 5);
}

/// A label may have white space round its name, its equals sign, its value and
/// the comma behind it.
pub proof fn labels_may_stand_apart(
    key: Seq<char>,
    gaps: Seq<Seq<char>>,
    spelled: Seq<char>,
    value: Seq<char>,
    more: Seq<char>,
)
    requires
        key.len() > 0,
        !key.contains('='),
        !text::is_space(key[0]) && !text::is_space(key.last()),
        gaps.len() == 4,
        forall|j: int| 0 <= j < 4 ==> is_blank(#[trigger] gaps[j]),
        quoted_text(spelled + seq!['"'] + gaps[2] + seq![','] + gaps[3] + more) == Some(
            (value, gaps[2] + seq![','] + gaps[3] + more),
        ),
        more.len() == 0 || !text::is_space(more[0]),
    ensures
        label_list(
            key + gaps[0] + seq!['='] + gaps[1] + seq!['"'] + spelled + seq!['"'] + gaps[2]
                + seq![','] + gaps[3] + more,
        ) == after_labels(seq![(key, value)], label_list(more)),
{
    let none = Seq::<char>::empty();
    let head = key + gaps[0];
    let quoted = spelled + seq!['"'] + gaps[2] + seq![','] + gaps[3] + more;
    let behind = gaps[1] + (seq!['"'] + quoted);
    let rest = key + gaps[0] + seq!['='] + gaps[1] + seq!['"'] + spelled + seq!['"'] + gaps[2]
        + seq![','] + gaps[3] + more;
    assert(rest =~= head + seq!['='] + behind);
    assert(is_blank(gaps[0]) && is_blank(gaps[1]) && is_blank(gaps[2]) && is_blank(gaps[3]));
    assert forall|j: int| 0 <= j < head.len() implies head[j] != '=' by {
        if j < key.len() {
            assert(key.contains(key[j]));
        } else {
            assert(head[j] == gaps[0][j - key.len()]);
        }
    }
    text::characters_are_found(head, '=', behind);
    let eq = head.len() as int;
    assert(rest.take(eq) =~= head);
    assert(rest.skip(eq + 1) =~= behind);
    text::ends_are_trimmed(none, key, gaps[0]);
    assert(none + key + gaps[0] =~= head);
    lemma_trim_start(gaps[1], seq!['"'] + quoted);
    let after_eq = seq!['"'] + quoted;
    assert(after_eq.skip(1) =~= quoted);
    let tail = gaps[2] + seq![','] + gaps[3] + more;
    let next = seq![','] + gaps[3] + more;
    assert(tail =~= gaps[2] + next);
    lemma_trim_start(gaps[2], next);
    assert(next.skip(1) =~= gaps[3] + more);
    lemma_trim_start(gaps[3], more);
}

proof fn lemma_trim_start(gap: Seq<char>, s: Seq<char>)
    requires
        is_blank(gap),
        s.len() == 0 || !text::is_space(s[0]),
    ensures
        text::trim_start(gap + s) == s,
{
    let whole = gap + s;
    let n = gap.len() as int;
    assert forall|j: int| 0 <= j < n implies text::blank()(#[trigger] whole[j]) by {
        assert(whole[j] == gap[j]);
    }
    if s.len() > 0 {
        assert(whole[n] == s[0]);
    }
    text::lemma_run(whole, text::blank(), n);
    assert(whole.skip(n) =~= s);
}

/// In a help text `\\` stands for a backslash and `\n` for a line feed; a
/// backslash before anything else, or at the end, stands for itself, and so does
/// every other character.
pub proof fn help_escapes_are_undone(c: char, rest: Seq<char>)
    ensures
        unescaped(seq![]) == Seq::<char>::empty(),
        unescaped(seq!['\\']) == seq!['\\'],
        c != '\\' ==> unescaped(seq![c] + rest) == seq![c] + unescaped(rest),
        unescaped(seq!['\\', c] + rest) == (if c == '\\' {
            seq!['\\']
        } else if c == 'n' {
            seq!['\n']
        } else {
            seq!['\\', c]
        }) + unescaped(rest),
{
    assert((seq!['\\', c] + rest).skip(2) =~= rest);
    assert((seq![c] + rest).skip(1) =~= rest);
    let one = seq!['\\'];
    assert(one.len() == 1 && one[0] == '\\');
}

/// A label's value ends at the first quote that no backslash precedes. In it,
/// `\"` stands for a quote too.
pub proof fn label_escapes_are_undone(c: char, rest: Seq<char>)
    ensures
        quoted_text(seq![]) is None,
        quoted_text(seq!['"'] + rest) == Some((Seq::<char>::empty(), rest)),
        c != '"' && c != '\\' ==> quoted_text(seq![c] + rest) == match quoted_text(rest) {
            Some((text, tail)) => Some((seq![c] + text, tail)),
            None => None,
        },
        quoted_text(seq!['\\', c] + rest) == match quoted_text(rest) {
            Some((text, tail)) => Some(
                (
                    (if c == '\\' || c == '"' {
                        seq![c]
                    } else if c == 'n' {
                        seq!['\n']
                    } else {
                        seq!['\\', c]
                    }) + text,
                    tail,
                ),
            ),
            None => None,
        },
{
    assert((seq!['\\', c] + rest).skip(2) =~= rest);
    assert((seq![c] + rest).skip(1) =~= rest);
    assert((seq!['"'] + rest).skip(1) =~= rest);
}

/// A directory that cannot be listed is told by the error alone.
pub proof fn unlisted_directories_are_errors()
    ensures
        directory_metrics(None).len() == 1,
        directory_metrics(None)[0].name == "node_textfile_scrape_error"@,
        directory_metrics(None)[0].samples.len() == 1,
        directory_metrics(None)[0].samples[0].labels.len() == 0,
        quantity::stands_for(directory_metrics(None)[0].samples[0].value, 1, 1),
{
}

/// Files that are in the order of their names are merged in that order, and what
/// they come to is followed by the two families about the files.
pub proof fn files_are_taken_in_order(files: Seq<TextFileView>)
    requires
        forall|i: int| 0 <= i < files.len() ==> is_prom((#[trigger] files[i]).name),
        forall|i: int, j: int|
            0 <= i < j < files.len() ==> order::bytes_less(
                (#[trigger] files[i]).bytes,
                (#[trigger] files[j]).bytes,
            ),
    ensures
        directory_families(files).len() == merged_files(files).len() + 2,
        directory_families(files).take(merged_files(files).len() as int) == merged_files(files),
        directory_families(files).last().name == "node_textfile_scrape_error"@,
{
    let less = order::order_of::<TextFile>();
    lemma_all_prom(files);
    lemma_file_order();
    assert forall|i: int, j: int| 0 <= i < j < files.len() implies !less(
        #[trigger] files[j],
        #[trigger] files[i],
    ) by {
        assert(less(files[i], files[j]));
        if less(files[j], files[i]) {
            assert(less(files[i], files[i]));
        }
    }
    order::what_is_in_order_stays(files, less);
    assert(directory_families(files).take(merged_files(files).len() as int) =~= merged_files(
        files,
    ));
}

/// A file has families where it can be read and parsed, and only there.
pub proof fn files_are_read_and_parsed(file: TextFileView)
    ensures
        file_families(file) is Some <==> file.contents is Some && exposition(file.contents->0)
            is Ok,
        file_families(file) is Some ==> file_families(file)->0 == exposition(
            file.contents->0,
        )->Ok_0,
{
}

/// What a line with a name and a brace behind it comes to.
proof fn lemma_braced_sample(line: Seq<char>, n: int, after: Seq<char>, close: int)
    requires
        text::run(line, name_char()) == n,
        0 < n < line.len(),
        after_spaces(line.skip(n)) == after,
        after.len() > 0,
        after[0] == '{',
        block_end(after.skip(1)) == close,
        close < after.skip(1).len(),
    ensures
        sample_of(line) == match labels_of(after.skip(1).take(close)) {
            Ok(labels) => match valued(labels, after.skip(1).skip(close + 1)) {
                Ok(sample) => Ok((line.take(n), sample)),
                Err(m) => Err(m),
            },
            Err(m) => Err(m),
        },
{
}

/// What a line without white space at its ends comes to.
proof fn lemma_solid_line(i: int, line: Seq<char>)
    requires
        line.len() > 0,
        line[0] != '#' && !text::is_space(line[0]) && !text::is_space(line.last()),
    ensures
        exposition_row(i, line) == match sample_of(line) {
            Ok((name, sample)) => Row::Keep(LineView::Sample(name, sample)),
            Err(m) => Row::Fail("line "@ + number::decimal((i + 1) as nat) + ": "@ + m),
        },
{
    let none = Seq::<char>::empty();
    text::ends_are_trimmed(none, line, none);
    assert(none + line + none =~= line);
}

/// A sample with labels has them in braces behind its name, with white space
/// before the braces or not, and its value behind them.
pub proof fn labelled_samples_are_read(
    i: int,
    name: Seq<char>,
    gap: Seq<char>,
    body: Seq<char>,
    rest: Seq<char>,
)
    requires
        name.len() > 0,
        forall|j: int|
            0 <= j < name.len() ==> !text::is_ascii_space(#[trigger] name[j]) && name[j] != '{',
        name[0] != '#' && !text::is_space(name[0]),
        is_gap(gap),
        block_end(body + seq!['}'] + rest) == body.len(),
        text::words(rest).len() > 0,
        !text::is_space((name + gap + seq!['{'] + body + seq!['}'] + rest).last()),
    ensures
        ({
            let line = name + gap + seq!['{'] + body + seq!['}'] + rest;
            let value = value_of(text::words(rest)[0]);
            if labels_of(body) is Ok && value is Ok {
                exposition_row(i, line) == Row::Keep(
                    LineView::Sample(
                        name,
                        SampleView { labels: labels_of(body)->Ok_0, value: value->Ok_0 },
                    ),
                )
            } else {
                exposition_row(i, line) is Fail
            }
        }),
{
    let line = name + gap + seq!['{'] + body + seq!['}'] + rest;
    let inside = body + seq!['}'] + rest;
    let after = seq!['{'] + inside;
    let n = name.len() as int;
    let close = body.len() as int;
    assert(line =~= name + gap + after);
    assert(line[0] == name[0]);
    assert(after[0] == '{');
    lemma_behind_name(name, gap, after);
    assert(after.skip(1) =~= inside);
    assert(inside.take(close) =~= body);
    assert(inside.skip(close + 1) =~= rest);
    lemma_braced_sample(line, n, after, close);
    lemma_solid_line(i, line);
}

/// A type line without a type fails the file; a help line without a text empties
/// the help text.
pub proof fn directives_need_their_words(i: int, gap: Seq<char>, name: Seq<char>)
    requires
        gap.len() > 0,
        is_gap(gap),
        name.len() > 0 && !text::is_space(name[0]) && !text::is_space(name.last()),
        forall|j: int| 0 <= j < name.len() ==> !text::is_ascii_space(#[trigger] name[j]),
    ensures
        exposition_row(i, "# TYPE"@ + gap + name) is Fail,
        exposition_row(i, "# HELP"@ + gap + name) == Row::Keep(
            LineView::Help(name, Seq::<char>::empty()),
        ),
{
    reveal_strlit("# TYPE");
    reveal_strlit("# HELP");
    reveal_strlit("TYPE");
    reveal_strlit("HELP");
    assert("TYPE"@[0] == 'T' && "HELP"@[0] == 'H');
    assert("# TYPE"@ =~= seq!['#', ' '] + "TYPE"@);
    assert("# HELP"@ =~= seq!['#', ' '] + "HELP"@);
    lemma_directive(i, "# TYPE"@, "TYPE"@, gap, name);
    lemma_directive(i, "# HELP"@, "HELP"@, gap, name);
}

proof fn lemma_directive(
    i: int,
    head: Seq<char>,
    word: Seq<char>,
    gap: Seq<char>,
    name: Seq<char>,
)
    requires
        head == seq!['#', ' '] + word,
        word.len() > 0,
        forall|j: int|
            0 <= j < word.len() ==> !text::is_ascii_space(#[trigger] word[j]) && !text::is_space(
                word[j],
            ),
        gap.len() > 0,
        is_gap(gap),
        name.len() > 0 && !text::is_space(name[0]) && !text::is_space(name.last()),
        forall|j: int| 0 <= j < name.len() ==> !text::is_ascii_space(#[trigger] name[j]),
    ensures
        exposition_row(i, head + gap + name) == directive(i, (head + gap + name).skip(1)),
        split_once((head + gap + name).skip(1)) == Some((word, name)),
        split_once(name) is None,
{
    let line = head + gap + name;
    let none = Seq::<char>::empty();
    assert(line.last() == name.last());
    assert(line[0] == '#');
    text::ends_are_trimmed(none, line, none);
    assert(none + line + none =~= line);
    let blank = seq![' '];
    let tail = gap + name;
    assert(is_blank(gap)) by {
        assert forall|j: int| 0 <= j < gap.len() implies text::is_space(#[trigger] gap[j]) by {
            text::printed_characters_are_no_white_space(gap[j]);
        }
    }
    assert(line.skip(1) =~= blank + (word + tail));
    assert(tail[0] == gap[0]);
    lemma_first_word(blank, word, tail);
    lemma_trim_start(gap, name);
    lemma_first_word(none, name, none);
    assert(none + (name + none) =~= name);
}

/// A line with a name alone, or without one, is no sample.
pub proof fn samples_need_a_name_and_a_value(i: int, name: Seq<char>, rest: Seq<char>)
    requires
        name.len() > 0,
        forall|j: int|
            0 <= j < name.len() ==> !text::is_ascii_space(#[trigger] name[j]) && name[j] != '{',
        name[0] != '#' && !text::is_space(name[0]) && !text::is_space(name.last()),
        rest.len() > 0 ==> !text::is_space(rest.last()),
    ensures
        exposition_row(i, name) is Fail,
        exposition_row(i, seq!['{'] + rest) is Fail,
{
    let none = Seq::<char>::empty();
    text::ends_are_trimmed(none, name, none);
    assert(none + name + none =~= name);
    assert forall|j: int| 0 <= j < name.len() implies name_char()(#[trigger] name[j]) by {}
    text::lemma_run(name, name_char(), name.len() as int);
    let bare = seq!['{'] + rest;
    assert(rest.len() > 0 ==> bare.last() == rest.last());
    text::ends_are_trimmed(none, bare, none);
    assert(none + bare + none =~= bare);
    assert(bare[0] == '{');
    text::lemma_run(bare, name_char(), 0);
}

/// Labels that lack an equals sign, a name, a quote before or behind the value,
/// or a comma between them are refused.
pub proof fn labels_are_well_formed(rest: Seq<char>)
    requires
        label_list(rest) is Ok,
        rest.len() > 0,
    ensures
        ({
            let eq = text::first_index(rest, '=');
            let after = text::trim_start(rest.skip(eq + 1));
            &&& rest.contains('=')
            &&& text::trim(rest.take(eq)).len() > 0
            &&& after.len() > 0 && after[0] == '"'
            &&& quoted_text(after.skip(1)) is Some
            &&& {
                let next = text::trim_start((quoted_text(after.skip(1))->0).1);
                next.len() == 0 || next[0] == ','
            }
            &&& label_list(rest)->Ok_0.len() > 0
            &&& label_list(rest)->Ok_0[0] == (
                text::trim(rest.take(eq)),
                (quoted_text(after.skip(1))->0).0,
            )
        }),
{
    let eq = text::first_index(rest, '=');
    text::lemma_run_meaning(rest, text::other_than('='));
    if eq < rest.len() {
        assert(rest.contains(rest[eq]));
    }
}

/// Only a file that was parsed and whose time is known tells its time, and once.
pub proof fn times_need_a_parsed_file(file: TextFileView)
    ensures
        mtime_sample()(file).len() == if file.contents is Some && exposition(file.contents->0)
            is Ok && file.mtime is Some {
            1int
        } else {
            0
        },
{
}

} // verus!
