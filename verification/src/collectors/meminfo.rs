//! `/proc/meminfo`: system memory statistics.
//!
//! Every key becomes a metric `node_memory_<Key>_bytes` (or `..._total` for
//! unit-less keys like `HugePages_Total`). Values that the kernel reports in
//! kB are converted to bytes.

use vstd::prelude::*;
use vstd::slice::slice_subrange;

use crate::config::Config;
use crate::error::Error;
use crate::metric;
use crate::metric::{Metric, MetricType, MetricView, Scale, Value, ValueView};
use crate::number;
use crate::number::{float_literal, push_decimal};
use crate::quantity;
use crate::rows;
use crate::rows::Row;
use crate::source;
use crate::source::{unreadable_error, FileRead, FileView};
use crate::text;
use crate::text::{
    ascii_alphanumeric, chars_of, find_char, lines_of, push_chars, push_quoted_chars, same,
    string_of, words_of,
};

verus! {

/// Bytes in a kB of the kernel.
pub const KB: u64 = 1024;

/// `key` with an underscore for every character that is no ASCII letter or
/// digit.
pub open spec fn sanitized(key: Seq<char>) -> Seq<char> {
    key.map_values(
        |c: char|
            if text::is_ascii_alphanumeric(c) {
                c
            } else {
                '_'
            },
    )
}

/// The family of a key.
pub open spec fn meminfo_metric(
    key: Seq<char>,
    suffix: Seq<char>,
    value: Seq<char>,
    scale: Scale,
) -> MetricView<ValueView> {
    MetricView::single(
        "node_memory_"@ + sanitized(key) + suffix,
        "Memory information field "@ + key + "."@,
        MetricType::Gauge,
        ValueView::decimal(value).scaled(scale),
    )
}

/// What line `i` comes to: a key, a colon, a value and perhaps the unit `kB`.
pub open spec fn meminfo_row(i: int, line: Seq<char>) -> Row<MetricView<ValueView>> {
    let colon = text::first_index(line, ':');
    let key = line.take(colon);
    let words = text::words(line.skip(colon + 1));
    let at_line = "meminfo: line "@ + number::decimal((i + 1) as nat);
    if line.len() == 0 {
        Row::Skip
    } else if colon >= line.len() {
        Row::Fail(at_line + " missing ':'"@)
    } else if words.len() == 0 {
        Row::Fail(at_line + " missing value"@)
    } else if !number::is_float(words[0]) {
        Row::Fail("meminfo: parsing value for "@ + key)
    } else if words.len() == 1 {
        Row::Keep(meminfo_metric(key, "_total"@, words[0], Scale::Unit))
    } else if words[1] == "kB"@ {
        Row::Keep(meminfo_metric(key, "_bytes"@, words[0], Scale::Times(KB)))
    } else {
        Row::Fail("meminfo: unexpected unit "@ + text::debug_form(words[1]) + " for "@ + key)
    }
}

pub open spec fn meminfo_row_at() -> spec_fn(int, Seq<char>) -> Row<MetricView<ValueView>> {
    |i: int, line: Seq<char>| meminfo_row(i, line)
}

/// What `/proc/meminfo` comes to.
pub open spec fn meminfo_outcome(raw: Seq<char>) -> Result<Seq<MetricView<ValueView>>, Seq<char>> {
    match rows::rows(text::lines(raw), meminfo_row_at()) {
        Ok(metrics) => if metrics.len() == 0 {
            Err("meminfo: no values parsed"@)
        } else {
            Ok(metrics)
        },
        Err(m) => Err(m),
    }
}

/// Replaces every character that is no ASCII letter or digit.
pub fn sanitize(key: &[char]) -> (r: String)
    ensures
        r@ == sanitized(key@),
{
    let mut out = String::new();
    let mut i: usize = 0;
    assert(out@ =~= sanitized(key@).take(0));
    while i < key.len()
        invariant
            i <= key@.len(),
            out@ == sanitized(key@).take(i as int),
        decreases key@.len() - i,
    {
        let c = if ascii_alphanumeric(key[i]) {
            key[i]
        } else {
            '_'
        };
        out.push(c);
        assert(sanitized(key@).take(i + 1) =~= sanitized(key@).take(i as int).push(c));
        i = i + 1;
    }
    assert(sanitized(key@).take(i as int) =~= sanitized(key@));
    out
}

fn at_line(i: usize, what: &str) -> (r: Error)
    requires
        i < usize::MAX,
    ensures
        r@ == "meminfo: line "@ + number::decimal((i + 1) as nat) + what@,
{
    let mut m = "meminfo: line ".to_owned();
    push_decimal(&mut m, i as u64 + 1);
    m.push_str(what);
    Error::new(m)
}

fn make_metric(key: &[char], suffix: &str, value: &[char], scale: Scale) -> (r: Metric<Value>)
    ensures
        r@ == meminfo_metric(key@, suffix@, value@, scale),
{
    let mut name = "node_memory_".to_owned();
    name.push_str(sanitize(key).as_str());
    name.push_str(suffix);
    let mut help = "Memory information field ".to_owned();
    push_chars(&mut help, key);
    help.push_str(".");
    Metric::single(
        name.as_str(),
        help.as_str(),
        MetricType::Gauge,
        Value::decimal(string_of(value)).scaled(scale),
    )
}

fn parse_row(i: usize, line: &[char]) -> (r: Result<Option<Metric<Value>>, Error>)
    requires
        i < usize::MAX,
    ensures
        match r {
            Ok(None) => meminfo_row(i as int, line@) == Row::<MetricView<ValueView>>::Skip,
            Ok(Some(m)) => meminfo_row(i as int, line@) == Row::Keep(m@),
            Err(e) => meminfo_row(i as int, line@) == Row::<MetricView<ValueView>>::Fail(e@),
        },
{
    if line.len() == 0 {
        return Ok(None);
    }
    let colon = find_char(line, ':');
    if colon == line.len() {
        return Err(at_line(i, " missing ':'"));
    }
    let key = slice_subrange(line, 0, colon);
    let words = words_of(slice_subrange(line, colon + 1, line.len()));
    assert(text::views(words@).len() == words@.len());
    if words.len() == 0 {
        return Err(at_line(i, " missing value"));
    }
    assert(text::views(words@)[0] == words@[0]@);
    if !float_literal(words[0]) {
        let mut m = "meminfo: parsing value for ".to_owned();
        push_chars(&mut m, key);
        return Err(Error::new(m));
    }
    if words.len() == 1 {
        return Ok(Some(make_metric(key, "_total", words[0], Scale::Unit)));
    }
    assert(text::views(words@)[1] == words@[1]@);
    if same(words[1], "kB") {
        return Ok(Some(make_metric(key, "_bytes", words[0], Scale::Times(KB))));
    }
    let mut m = "meminfo: unexpected unit ".to_owned();
    push_quoted_chars(&mut m, words[1]);
    m.push_str(" for ");
    push_chars(&mut m, key);
    Err(Error::new(m))
}

/// Parses `/proc/meminfo`.
pub fn parse(raw: &str) -> (r: Result<Vec<Metric<Value>>, Error>)
    ensures
        metric::outcome(r) == meminfo_outcome(raw@),
{
    let chars = chars_of(raw);
    let lines = lines_of(chars.as_slice());
    let ghost all = text::lines(raw@);
    let mut out: Vec<Metric<Value>> = Vec::new();
    let mut i: usize = 0;
    assert(metric::metric_views(out@) =~= seq![]);
    while i < lines.len()
        invariant
            all == text::lines(raw@),
            text::views(lines@) == all,
            i <= lines@.len(),
            rows::rows(all.take(i as int), meminfo_row_at()) == Ok::<_, Seq<char>>(
                metric::metric_views(out@),
            ),
        decreases lines@.len() - i,
    {
        proof {
            assert(all[i as int] == lines@[i as int]@);
            rows::lemma_next_row(all, meminfo_row_at(), i as int);
        }
        let ghost before = metric::metric_views(out@);
        match parse_row(i, lines[i]) {
            Ok(Some(m)) => {
                out.push(m);
                assert(metric::metric_views(out@) =~= before.push(m@));
            },
            Ok(None) => {},
            Err(e) => {
                proof {
                    rows::lemma_failed_row(all, meminfo_row_at(), i + 1);
                }
                return Err(e);
            },
        }
        i = i + 1;
    }
    assert(all.take(all.len() as int) =~= all);
    if out.len() == 0 {
        return Err(Error::new("meminfo: no values parsed".to_owned()));
    }
    Ok(out)
}

pub struct MeminfoCollector;

impl MeminfoCollector {
    pub fn name(&self) -> (r: &'static str)
        ensures
            r@ == "meminfo"@,
    {
        "meminfo"
    }

    /// The file that the collector reads.
    pub fn path(&self, cfg: &Config) -> (r: String)
        ensures
            r@ == cfg.proc_path_of("/proc/meminfo"@),
    {
        cfg.proc_path("/proc/meminfo")
    }

    /// The metrics, given what came of reading the file.
    pub fn collect(&self, cfg: &Config, read: &FileRead) -> (r: Result<Vec<Metric<Value>>, Error>)
        ensures
            metric::outcome(r) == match read@ {
                FileView::Contents(raw) => meminfo_outcome(raw),
                _ => Err(source::unreadable(cfg.proc_path_of("/proc/meminfo"@))),
            },
    {
        match read {
            FileRead::Contents(raw) => parse(raw.as_str()),
            _ => Err(unreadable_error(self.path(cfg).as_str())),
        }
    }
}

// ------------------------------------------------------------------------ laws

/// A key keeps its letters and digits, and every other character of it becomes
/// an underscore.
pub proof fn keys_keep_letters_and_digits(key: Seq<char>)
    ensures
        sanitized(key).len() == key.len(),
        forall|i: int|
            0 <= i < key.len() ==> #[trigger] sanitized(key)[i] == if '0' <= key[i] <= '9' || 'a'
                <= key[i] <= 'z' || 'A' <= key[i] <= 'Z' {
                key[i]
            } else {
                '_'
            },
{
}

/// A line is a key, a colon and a number. A number in kB is exported in bytes,
/// 1024 to the kB, and one without a unit as it is. Each has a family of its own,
/// named by the key and the unit, with one sample without labels.
pub proof fn every_field_has_its_family(
    i: int,
    key: Seq<char>,
    rest: Seq<char>,
    number: Seq<char>,
    more: Seq<Seq<char>>,
)
    requires
        !key.contains(':'),
        number::is_float(number),
        text::words(rest) == seq![number] || text::words(rest) == seq![number, "kB"@] + more,
    ensures
        ({
            let row = meminfo_row(i, key + seq![':'] + rest);
            let kilobytes = text::words(rest).len() > 1;
            &&& row is Keep
            &&& row->Keep_0.name == "node_memory_"@ + sanitized(key) + if kilobytes {
                "_bytes"@
            } else {
                "_total"@
            }
            &&& row->Keep_0.mtype == MetricType::Gauge
            &&& row->Keep_0.samples.len() == 1
            &&& row->Keep_0.samples[0].labels.len() == 0
            &&& quantity::spells_times(
                row->Keep_0.samples[0].value,
                number,
                if kilobytes {
                    1024
                } else {
                    1
                },
                1,
            )
        }),
{
    let line = key + seq![':'] + rest;
    let n = key.len() as int;
    text::characters_are_found(key, ':', rest);
    assert(line.take(n) =~= key);
    assert(line.skip(n + 1) =~= rest);
    let words = text::words(rest);
    assert(words[0] == number);
    if words.len() > 1 {
        assert(words[1] == "kB"@);
    }
    quantity::literals_are_scaled(number, Scale::Unit);
    quantity::literals_are_scaled(number, Scale::Times(1024));
}

/// Where `/proc/meminfo` parses, its families are those of its lines that are
/// not empty, in order.
pub proof fn every_line_has_its_family(raw: Seq<char>)
    requires
        meminfo_outcome(raw) is Ok,
    ensures
        ({
            let lines = text::lines(raw);
            let at = rows::positions(lines, rows::filled());
            let families = meminfo_outcome(raw)->Ok_0;
            &&& families.len() == at.len()
            &&& families.len() > 0
            &&& forall|i: int|
                #![trigger families[i]]
                0 <= i < at.len() ==> meminfo_row(at[i], lines[at[i]]) == Row::Keep(families[i])
        }),
{
    let lines = text::lines(raw);
    let at = rows::positions(lines, rows::filled());
    let families = meminfo_outcome(raw)->Ok_0;
    rows::filled_lines_are_the_rows(lines, meminfo_row_at());
    assert forall|i: int| #![trigger families[i]] 0 <= i < at.len() implies meminfo_row(
        at[i],
        lines[at[i]],
    ) == Row::Keep(families[i]) by {
        assert(meminfo_row_at()(at[i], lines[at[i]]) == Row::Keep(families[i]));
    }
}

/// `/proc/meminfo` parses where each of its lines that is not empty has a key, a
/// colon and a number, with no unit or in kB, and where there is such a line.
pub proof fn good_fields_do_not_fail(raw: Seq<char>)
    ensures
        meminfo_outcome(raw) is Ok <==> {
            let lines = text::lines(raw);
            &&& exists|k: int| 0 <= k < lines.len() && (#[trigger] lines[k]).len() > 0
            &&& forall|k: int|
                0 <= k < lines.len() && (#[trigger] lines[k]).len() > 0 ==> {
                    let colon = text::first_index(lines[k], ':');
                    let words = text::words(lines[k].skip(colon + 1));
                    &&& lines[k].contains(':')
                    &&& words.len() > 0 && number::is_float(words[0])
                    &&& words.len() == 1 || words[1] == "kB"@
                }
        },
{
    let lines = text::lines(raw);
    let row = meminfo_row_at();
    rows::the_first_fault_fails_the_file(lines, row);
    assert forall|k: int| 0 <= k < lines.len() && (#[trigger] lines[k]).len() > 0 implies (row(
        k,
        lines[k],
    ) is Fail <==> !{
        let colon = text::first_index(lines[k], ':');
        let words = text::words(lines[k].skip(colon + 1));
        &&& lines[k].contains(':')
        &&& words.len() > 0 && number::is_float(words[0])
        &&& words.len() == 1 || words[1] == "kB"@
    }) by {
        let line = lines[k];
        let colon = text::first_index(line, ':');
        text::lemma_run_meaning(line, text::other_than(':'));
        if colon < line.len() {
            assert(line.contains(line[colon]));
        } else if line.contains(':') {
            let j = choose|j: int| 0 <= j < line.len() && line[j] == ':';
            assert(text::other_than(':')(line[j]));
        }
    }
    if rows::rows(lines, row) is Ok {
        rows::filled_lines_are_the_rows(lines, row);
        rows::lemma_positions(lines, rows::filled());
        let at = rows::positions(lines, rows::filled());
        if at.len() > 0 {
            assert(rows::filled()(lines[at[0]]));
            assert(lines[at[0]].len() > 0);
        }
        if exists|k: int| 0 <= k < lines.len() && (#[trigger] lines[k]).len() > 0 {
            let k = choose|k: int| 0 <= k < lines.len() && (#[trigger] lines[k]).len() > 0;
            assert(rows::filled()(lines[k]));
            assert(at.contains(k));
        }
    }
}

/// A message about a line that lacks its colon or its value names the line,
/// counted from one.
pub proof fn faults_name_their_line(i: int, line: Seq<char>)
    requires
        i >= 0,
        line.len() > 0,
        !line.contains(':') || text::words(line.skip(text::first_index(line, ':') + 1)).len() == 0,
    ensures
        meminfo_row(i, line) is Fail,
        text::starts(
            meminfo_row(i, line)->Fail_0,
            "meminfo: line "@ + number::decimal((i + 1) as nat) + " "@,
        ),
{
    reveal_strlit(" ");
    reveal_strlit(" missing ':'");
    reveal_strlit(" missing value");
    let head = "meminfo: line "@ + number::decimal((i + 1) as nat);
    text::lemma_run_meaning(line, text::other_than(':'));
    text::lemma_starts(head + " "@, " missing ':'"@.skip(1));
    text::lemma_starts(head + " "@, " missing value"@.skip(1));
    assert(head + " missing ':'"@ =~= head + " "@ + " missing ':'"@.skip(1));
    assert(head + " missing value"@ =~= head + " "@ + " missing value"@.skip(1));
    if !line.contains(':') && text::first_index(line, ':') < line.len() {
        assert(line.contains(line[text::first_index(line, ':')]));
    }
}

} // verus!
