//! `/proc/vmstat`: virtual memory subsystem statistics.
//!
//! Each line is a whitespace-separated `<key> <value>` pair. Every field
//! is exposed as `node_vmstat_<key>` with HELP text matching upstream
//! `node_exporter`'s `'/proc/vmstat information field <key>.'`.
//!
//! Type rule: keys starting with `nr_` describe an instantaneous
//! population count (free pages, dirty pages, and so on) and are emitted as
//! gauges. Everything else (`pgfault`, `pgpgin`, `oom_kill`, and so on) is a
//! monotonic event counter.

use vstd::prelude::*;

use crate::config::Config;
use crate::error::Error;
use crate::metric;
use crate::metric::{Metric, MetricType, MetricView, Sample, SampleView, Value, ValueView};
use crate::number;
use crate::number::{parse_u64, push_decimal};
use crate::quantity;
use crate::rows;
use crate::rows::Row;
use crate::source;
use crate::source::{unreadable_error, FileRead, FileView};
use crate::text;
use crate::text::{chars_of, lines_of, push_chars, strip_prefix, words_of};

verus! {

/// The type of the field `key`.
pub open spec fn vmstat_type(key: Seq<char>) -> MetricType {
    if text::starts(key, "nr_"@) {
        MetricType::Gauge
    } else {
        MetricType::Counter
    }
}

/// The family of the field `key`.
pub open spec fn vmstat_metric(key: Seq<char>, n: u64) -> MetricView<ValueView> {
    MetricView::new(
        "node_vmstat_"@ + key,
        "/proc/vmstat information field "@ + key + "."@,
        vmstat_type(key),
    ).with_sample(SampleView::new(ValueView::unsigned(n)))
}

/// What line `i` of `/proc/vmstat` comes to: its first word is the key, its
/// second the value.
pub open spec fn vmstat_row(i: int, line: Seq<char>) -> Row<MetricView<ValueView>> {
    let words = text::words(line);
    let lineno = number::decimal((i + 1) as nat);
    if line.len() == 0 {
        Row::Skip
    } else if words.len() == 0 {
        Row::Fail("vmstat: line "@ + lineno + " missing key"@)
    } else if words.len() == 1 {
        Row::Fail("vmstat: line "@ + lineno + " missing value for "@ + words[0])
    } else {
        match number::u64_value(words[1]) {
            Some(n) => Row::Keep(vmstat_metric(words[0], n)),
            None => Row::Fail("vmstat: parsing value for "@ + words[0]),
        }
    }
}

pub open spec fn vmstat_row_at() -> spec_fn(int, Seq<char>) -> Row<MetricView<ValueView>> {
    |i: int, line: Seq<char>| vmstat_row(i, line)
}

/// What `/proc/vmstat` comes to: one family for each line that is not empty,
/// or the message of the first faulty line, or of the lack of values.
pub open spec fn vmstat_outcome(raw: Seq<char>) -> Result<Seq<MetricView<ValueView>>, Seq<char>> {
    match rows::rows(text::lines(raw), vmstat_row_at()) {
        Ok(metrics) => if metrics.len() == 0 {
            Err("vmstat: no values parsed"@)
        } else {
            Ok(metrics)
        },
        Err(m) => Err(m),
    }
}

/// What one line comes to, as `vmstat_row` says.
fn parse_row(i: usize, line: &[char]) -> (r: Result<Option<Metric<Value>>, Error>)
    requires
        i < usize::MAX,
    ensures
        match r {
            Ok(None) => vmstat_row(i as int, line@) == Row::<MetricView<ValueView>>::Skip,
            Ok(Some(m)) => vmstat_row(i as int, line@) == Row::Keep(m@),
            Err(e) => vmstat_row(i as int, line@) == Row::<MetricView<ValueView>>::Fail(e@),
        },
{
    if line.len() == 0 {
        return Ok(None);
    }
    let words = words_of(line);
    assert(text::views(words@).len() == words@.len());
    if words.len() == 0 {
        let mut m = "vmstat: line ".to_owned();
        push_decimal(&mut m, i as u64 + 1);
        m.push_str(" missing key");
        return Err(Error::new(m));
    }
    let key = words[0];
    assert(text::views(words@)[0] == key@);
    if words.len() == 1 {
        let mut m = "vmstat: line ".to_owned();
        push_decimal(&mut m, i as u64 + 1);
        m.push_str(" missing value for ");
        push_chars(&mut m, key);
        return Err(Error::new(m));
    }
    assert(text::views(words@)[1] == words@[1]@);
    match parse_u64(words[1]) {
        Some(n) => {
            let mtype = if strip_prefix(key, "nr_").is_some() {
                MetricType::Gauge
            } else {
                MetricType::Counter
            };
            let mut name = "node_vmstat_".to_owned();
            push_chars(&mut name, key);
            let mut help = "/proc/vmstat information field ".to_owned();
            push_chars(&mut help, key);
            help.push_str(".");
            Ok(
                Some(
                    Metric::new(name.as_str(), help.as_str(), mtype).with_sample(
                        Sample::new(Value::unsigned(n)),
                    ),
                ),
            )
        },
        None => {
            let mut m = "vmstat: parsing value for ".to_owned();
            push_chars(&mut m, key);
            Err(Error::new(m))
        },
    }
}

/// Parses `/proc/vmstat`.
pub fn parse(raw: &str) -> (r: Result<Vec<Metric<Value>>, Error>)
    ensures
        metric::outcome(r) == vmstat_outcome(raw@),
{
    let chars = chars_of(raw);
    let lines = lines_of(chars.as_slice());
    let ghost all = text::lines(raw@);
    let mut out: Vec<Metric<Value>> = Vec::new();
    let mut i: usize = 0;
    assert(metric::metric_views(out@) =~= seq![]);
    while i < lines.len()
        invariant
            all == text::lines(raw@),
            text::views(lines@) == all,
            i <= lines@.len(),
            rows::rows(all.take(i as int), vmstat_row_at()) == Ok::<_, Seq<char>>(
                metric::metric_views(out@),
            ),
        decreases lines@.len() - i,
    {
        proof {
            assert(all[i as int] == lines@[i as int]@);
            rows::lemma_next_row(all, vmstat_row_at(), i as int);
        }
        let ghost before = metric::metric_views(out@);
        match parse_row(i, lines[i]) {
            Ok(Some(m)) => {
                out.push(m);
                assert(metric::metric_views(out@) =~= before.push(m@));
            },
            Ok(None) => {},
            Err(e) => {
                proof {
                    rows::lemma_failed_row(all, vmstat_row_at(), i + 1);
                }
                return Err(e);
            },
        }
        i = i + 1;
    }
    assert(all.take(all.len() as int) =~= all);
    if out.len() == 0 {
        return Err(Error::new("vmstat: no values parsed".to_owned()));
    }
    Ok(out)
}

pub struct VmstatCollector;

impl VmstatCollector {
    pub fn name(&self) -> (r: &'static str)
        ensures
            r@ == "vmstat"@,
    {
        "vmstat"
    }

    /// The file that the collector reads.
    pub fn path(&self, cfg: &Config) -> (r: String)
        ensures
            r@ == cfg.proc_path_of("/proc/vmstat"@),
    {
        cfg.proc_path("/proc/vmstat")
    }

    /// The metrics, given what came of reading the file.
    pub fn collect(&self, cfg: &Config, read: &FileRead) -> (r: Result<Vec<Metric<Value>>, Error>)
        ensures
            metric::outcome(r) == match read@ {
                FileView::Contents(raw) => vmstat_outcome(raw),
                _ => Err(source::unreadable(cfg.proc_path_of("/proc/vmstat"@))),
            },
    {
        match read {
            FileRead::Contents(raw) => parse(raw.as_str()),
            _ => Err(unreadable_error(self.path(cfg).as_str())),
        }
    }
}

// ------------------------------------------------------------------------ laws

/// A line is a key and a number. Each has a family of its own, named by the key,
/// with the number as its one sample, without labels. What counts pages right now
/// (`nr_`) is a gauge, all else a counter.
pub proof fn every_field_has_its_family(
    i: int,
    line: Seq<char>,
    key: Seq<char>,
    number: Seq<char>,
    more: Seq<Seq<char>>,
)
    requires
        text::words(line) == seq![key, number] + more,
        number::u64_value(number) is Some,
    ensures
        ({
            let row = vmstat_row(i, line);
            &&& row is Keep
            &&& row->Keep_0.name == "node_vmstat_"@ + key
            &&& row->Keep_0.samples.len() == 1
            &&& row->Keep_0.samples[0].labels.len() == 0
            &&& quantity::stands_for(
                row->Keep_0.samples[0].value,
                number::u64_value(number)->0 as int,
                1,
            )
            &&& row->Keep_0.mtype == if key.len() >= 3 && key[0] == 'n' && key[1] == 'r' && key[2]
                == '_' {
                MetricType::Gauge
            } else {
                MetricType::Counter
            }
        }),
{
    let words = text::words(line);
    assert(words[0] == key && words[1] == number);
    if line.len() == 0 {
        text::words_are_cut_at_blanks(seq!['x'], ' ', line);
        assert(line =~= seq![]);
    }
    reveal_strlit("nr_");
    if key.len() >= 3 {
        if key[0] == 'n' && key[1] == 'r' && key[2] == '_' {
            assert(key.take(3) =~= "nr_"@);
        }
        assert(key.take(3)[0] == key[0] && key.take(3)[1] == key[1] && key.take(3)[2] == key[2]);
    }
}

/// Where `/proc/vmstat` parses, its families are those of its lines that are not
/// empty, in order.
pub proof fn every_line_has_its_family(raw: Seq<char>)
    requires
        vmstat_outcome(raw) is Ok,
    ensures
        ({
            let lines = text::lines(raw);
            let at = rows::positions(lines, rows::filled());
            let families = vmstat_outcome(raw)->Ok_0;
            &&& families.len() == at.len()
            &&& families.len() > 0
            &&& forall|i: int|
                #![trigger families[i]]
                0 <= i < at.len() ==> vmstat_row(at[i], lines[at[i]]) == Row::Keep(families[i])
        }),
{
    let lines = text::lines(raw);
    let at = rows::positions(lines, rows::filled());
    let families = vmstat_outcome(raw)->Ok_0;
    rows::filled_lines_are_the_rows(lines, vmstat_row_at());
    assert forall|i: int| #![trigger families[i]] 0 <= i < at.len() implies vmstat_row(
        at[i],
        lines[at[i]],
    ) == Row::Keep(families[i]) by {
        assert(vmstat_row_at()(at[i], lines[at[i]]) == Row::Keep(families[i]));
    }
}

/// `/proc/vmstat` parses where each of its lines that is not empty has a key and
/// a number, and where there is such a line.
pub proof fn good_fields_do_not_fail(raw: Seq<char>)
    ensures
        vmstat_outcome(raw) is Ok <==> {
            let lines = text::lines(raw);
            &&& exists|k: int| 0 <= k < lines.len() && (#[trigger] lines[k]).len() > 0
            &&& forall|k: int|
                0 <= k < lines.len() && (#[trigger] lines[k]).len() > 0 ==> {
                    let words = text::words(lines[k]);
                    words.len() >= 2 && number::u64_value(words[1]) is Some
                }
        },
{
    let lines = text::lines(raw);
    let row = vmstat_row_at();
    rows::the_first_fault_fails_the_file(lines, row);
    assert forall|k: int| 0 <= k < lines.len() && (#[trigger] lines[k]).len() > 0 implies (row(
        k,
        lines[k],
    ) is Fail <==> !{
        let words = text::words(lines[k]);
        words.len() >= 2 && number::u64_value(words[1]) is Some
    }) by {}
    if rows::rows(lines, row) is Ok {
        rows::filled_lines_are_the_rows(lines, row);
        rows::lemma_positions(lines, rows::filled());
        let at = rows::positions(lines, rows::filled());
        if at.len() > 0 {
            assert(rows::filled()(lines[at[0]]));
            assert(lines[at[0]].len() > 0);
        }
        if exists|k: int| 0 <= k < lines.len() && (#[trigger] lines[k]).len() > 0 {
            let k = choose|k: int| 0 <= k < lines.len() && (#[trigger] lines[k]).len() > 0;
            assert(rows::filled()(lines[k]));
            assert(at.contains(k));
        }
    }
}

/// A message about a line that lacks a word names the line, counted from one.
pub proof fn faults_name_their_line(i: int, line: Seq<char>)
    requires
        i >= 0,
        line.len() > 0,
        text::words(line).len() < 2,
    ensures
        vmstat_row(i, line) is Fail,
        text::starts(
            vmstat_row(i, line)->Fail_0,
            "vmstat: line "@ + number::decimal((i + 1) as nat) + " missing "@,
        ),
{
    reveal_strlit(" missing ");
    reveal_strlit(" missing key");
    reveal_strlit(" missing value for ");
    let head = "vmstat: line "@ + number::decimal((i + 1) as nat);
    assert(" missing key"@ =~= " missing "@ + " missing key"@.skip(9));
    assert(" missing value for "@ =~= " missing "@ + " missing value for "@.skip(9));
    let words = text::words(line);
    if words.len() == 0 {
        text::lemma_starts(head + " missing "@, " missing key"@.skip(9));
        assert(head + " missing key"@ =~= head + " missing "@ + " missing key"@.skip(9));
    } else {
        let tail = " missing value for "@.skip(9) + words[0];
        text::lemma_starts(head + " missing "@, tail);
        assert(head + " missing value for "@ + words[0] =~= head + " missing "@ + tail);
    }
}

} // verus!
