//! `/proc/stat`: kernel and system statistics (non-CPU lines).
//!
//! The CPU lines are owned by the [`cpu`](super::cpu) collector. This one
//! handles the remaining keyword lines:
//!
//! - `node_boot_time_seconds` (gauge): `btime <unixtime>`.
//! - `node_intr_total` (counter): the first integer on the `intr` line, the
//!   total; the per-IRQ breakdown that follows is dropped.
//! - `node_context_switches_total` (counter): `ctxt <n>`.
//! - `node_forks_total` (counter): `processes <n>`.
//! - `node_procs_running` (gauge): `procs_running <n>`.
//! - `node_procs_blocked` (gauge): `procs_blocked <n>`.
//! - `node_softirqs_total` (counter): the first integer on the `softirq` line,
//!   the total.

use vstd::prelude::*;

use crate::config::Config;
use crate::error::Error;
use crate::metric;
use crate::metric::{Metric, MetricType, MetricView, Value, ValueView};
use crate::number;
use crate::number::parse_u64;
use crate::quantity;
use crate::rows;
use crate::rows::Row;
use crate::source;
use crate::source::{unreadable_error, FileRead, FileView};
use crate::text;
use crate::text::{chars_of, lines_of, push_quoted_chars, same, words_of};

verus! {

/// The number of keywords.
pub const KEYS: usize = 7;

/// The keywords, in the order of their families.
pub open spec fn stat_keys() -> Seq<Seq<char>> {
    seq![
        "btime"@,
        "intr"@,
        "ctxt"@,
        "processes"@,
        "procs_running"@,
        "procs_blocked"@,
        "softirq"@,
    ]
}

fn stat_key(i: usize) -> (r: &'static str)
    requires
        i < KEYS,
    ensures
        r@ == stat_keys()[i as int],
{
    match i {
        0 => "btime",
        1 => "intr",
        2 => "ctxt",
        3 => "processes",
        4 => "procs_running",
        5 => "procs_blocked",
        _ => "softirq",
    }
}

/// What a line comes to: a keyword and its value. Unknown keywords are
/// skipped, so that newer kernels do no harm.
pub open spec fn stat_row(line: Seq<char>) -> Row<(Seq<char>, u64)> {
    let words = text::words(line);
    if words.len() == 0 || !stat_keys().contains(words[0]) {
        Row::Skip
    } else if words.len() == 1 {
        Row::Fail("stat: missing value for "@ + words[0])
    } else {
        match number::u64_value(words[1]) {
            Some(n) => Row::Keep((words[0], n)),
            None => Row::Fail(
                "stat: parsing "@ + words[0] + " value "@ + text::debug_form(words[1]),
            ),
        }
    }
}

pub open spec fn stat_row_at() -> spec_fn(int, Seq<char>) -> Row<(Seq<char>, u64)> {
    |i: int, line: Seq<char>| stat_row(line)
}

/// The value of a keyword: that of its last line.
pub open spec fn last_value(rows: Seq<(Seq<char>, u64)>, key: Seq<char>) -> Option<u64>
    decreases rows.len(),
{
    if rows.len() == 0 {
        None
    } else if rows.last().0 == key {
        Some(rows.last().1)
    } else {
        last_value(rows.drop_last(), key)
    }
}

/// The values of the first `n` keywords, or the message for the first of them
/// that has no line.
pub open spec fn stat_values(rows: Seq<(Seq<char>, u64)>, n: int) -> Result<Seq<u64>, Seq<char>>
    decreases n,
{
    if n <= 0 {
        Ok(seq![])
    } else {
        match stat_values(rows, n - 1) {
            Ok(before) => match last_value(rows, stat_keys()[n - 1]) {
                Some(v) => Ok(before.push(v)),
                None => Err("stat: missing "@ + stat_keys()[n - 1] + " line"@),
            },
            Err(m) => Err(m),
        }
    }
}

/// The families of the values of the keywords.
pub open spec fn stat_metrics(v: Seq<u64>) -> Seq<MetricView<ValueView>> {
    seq![
        MetricView::single(
            "node_boot_time_seconds"@,
            "Node boot time, in unixtime."@,
            MetricType::Gauge,
            ValueView::unsigned(v[0]),
        ),
        MetricView::single(
            "node_intr_total"@,
            "Total number of interrupts serviced."@,
            MetricType::Counter,
            ValueView::unsigned(v[1]),
        ),
        MetricView::single(
            "node_context_switches_total"@,
            "Total number of context switches."@,
            MetricType::Counter,
            ValueView::unsigned(v[2]),
        ),
        MetricView::single(
            "node_forks_total"@,
            "Total number of forks."@,
            MetricType::Counter,
            ValueView::unsigned(v[3]),
        ),
        MetricView::single(
            "node_procs_running"@,
            "Number of processes in runnable state."@,
            MetricType::Gauge,
            ValueView::unsigned(v[4]),
        ),
        MetricView::single(
            "node_procs_blocked"@,
            "Number of processes blocked waiting for I/O to complete."@,
            MetricType::Gauge,
            ValueView::unsigned(v[5]),
        ),
        MetricView::single(
            "node_softirqs_total"@,
            "Number of softirq calls."@,
            MetricType::Counter,
            ValueView::unsigned(v[6]),
        ),
    ]
}

/// What `/proc/stat` comes to.
pub open spec fn stat_outcome(raw: Seq<char>) -> Result<Seq<MetricView<ValueView>>, Seq<char>> {
    match rows::rows(text::lines(raw), stat_row_at()) {
        Ok(rows) => match stat_values(rows, KEYS as int) {
            Ok(values) => Ok(stat_metrics(values)),
            Err(m) => Err(m),
        },
        Err(m) => Err(m),
    }
}

/// The position of a keyword; past the last where it is none.
fn key_index(key: &[char]) -> (r: usize)
    ensures
        r <= KEYS,
        r < KEYS ==> stat_keys()[r as int] == key@,
        r == KEYS ==> !stat_keys().contains(key@),
{
    let mut i: usize = 0;
    while i < KEYS
        invariant
            i <= KEYS,
            forall|j: int| 0 <= j < i ==> stat_keys()[j] != key@,
        decreases KEYS - i,
    {
        if same(key, stat_key(i)) {
            return i;
        }
        i = i + 1;
    }
    i
}

/// The first value behind the keyword.
fn first_u64(words: &[&[char]], key: &str) -> (r: Result<u64, Error>)
    requires
        words@.len() >= 1,
        words@[0]@ == key@,
    ensures
        match r {
            Ok(n) => words@.len() > 1 && number::u64_value(words@[1]@) == Some(n),
            Err(e) => if words@.len() == 1 {
                e@ == "stat: missing value for "@ + key@
            } else {
                number::u64_value(words@[1]@) is None && e@ == "stat: parsing "@ + key@
                    + " value "@ + text::debug_form(words@[1]@)
            },
        },
{
    if words.len() == 1 {
        let mut m = "stat: missing value for ".to_owned();
        m.push_str(key);
        return Err(Error::new(m));
    }
    match parse_u64(words[1]) {
        Some(n) => Ok(n),
        None => {
            let mut m = "stat: parsing ".to_owned();
            m.push_str(key);
            m.push_str(" value ");
            push_quoted_chars(&mut m, words[1]);
            Err(Error::new(m))
        },
    }
}

fn parse_row(line: &[char]) -> (r: Result<Option<(usize, u64)>, Error>)
    ensures
        match r {
            Ok(None) => stat_row(line@) == Row::<(Seq<char>, u64)>::Skip,
            Ok(Some((k, n))) => k < KEYS && stat_row(line@) == Row::Keep(
                (stat_keys()[k as int], n),
            ),
            Err(e) => stat_row(line@) == Row::<(Seq<char>, u64)>::Fail(e@),
        },
{
    let words = words_of(line);
    assert(text::views(words@).len() == words@.len());
    if words.len() == 0 {
        return Ok(None);
    }
    assert(text::views(words@)[0] == words@[0]@);
    let k = key_index(words[0]);
    if k == KEYS {
        return Ok(None);
    }
    proof {
        assert(stat_keys().contains(words@[0]@)) by {
            assert(stat_keys()[k as int] == words@[0]@);
        }
        if words@.len() > 1 {
            assert(text::views(words@)[1] == words@[1]@);
        }
    }
    match first_u64(words.as_slice(), stat_key(k)) {
        Ok(n) => Ok(Some((k, n))),
        Err(e) => Err(e),
    }
}

proof fn lemma_missing_key(rows: Seq<(Seq<char>, u64)>, n: int, all: int)
    requires
        0 <= n <= all,
        stat_values(rows, n) is Err,
    ensures
        stat_values(rows, all) == stat_values(rows, n),
    decreases all,
{
    if n < all {
        lemma_missing_key(rows, n, all - 1);
    }
}

proof fn lemma_keys_differ()
    ensures
        forall|i: int, j: int| 0 <= i < j < KEYS ==> stat_keys()[i] != stat_keys()[j],
{
    reveal_strlit("btime");
    reveal_strlit("intr");
    reveal_strlit("ctxt");
    reveal_strlit("processes");
    reveal_strlit("procs_running");
    reveal_strlit("procs_blocked");
    reveal_strlit("softirq");
    assert("btime"@.len() == 5 && "intr"@.len() == 4 && "ctxt"@.len() == 4 && "processes"@.len()
        == 9 && "procs_running"@.len() == 13 && "procs_blocked"@.len() == 13 && "softirq"@.len()
        == 7);
    assert("intr"@[0] != "ctxt"@[0]);
    assert("procs_running"@[6] != "procs_blocked"@[6]);
}

/// Parses `/proc/stat`.
pub fn parse(raw: &str) -> (r: Result<Vec<Metric<Value>>, Error>)
    ensures
        metric::outcome(r) == stat_outcome(raw@),
{
    let chars = chars_of(raw);
    let lines = lines_of(chars.as_slice());
    let ghost all = text::lines(raw@);
    let ghost mut kept: Seq<(Seq<char>, u64)> = seq![];
    let mut found: Vec<Option<u64>> = vec![None, None, None, None, None, None, None];
    let mut i: usize = 0;
    while i < lines.len()
        invariant
            all == text::lines(raw@),
            text::views(lines@) == all,
            i <= lines@.len(),
            found@.len() == KEYS,
            rows::rows(all.take(i as int), stat_row_at()) == Ok::<_, Seq<char>>(kept),
            forall|k: int|
                0 <= k < KEYS ==> #[trigger] found@[k] == last_value(kept, stat_keys()[k]),
        decreases lines@.len() - i,
    {
        proof {
            assert(all[i as int] == lines@[i as int]@);
            rows::lemma_next_row(all, stat_row_at(), i as int);
        }
        match parse_row(lines[i]) {
            Ok(Some((k, n))) => {
                found.set(k, Some(n));
                proof {
                    lemma_keys_differ();
                    assert(kept.push((stat_keys()[k as int], n)).drop_last() =~= kept);
                    kept = kept.push((stat_keys()[k as int], n));
                }
            },
            Ok(None) => {},
            Err(e) => {
                proof {
                    rows::lemma_failed_row(all, stat_row_at(), i + 1);
                }
                return Err(e);
            },
        }
        i = i + 1;
    }
    assert(all.take(all.len() as int) =~= all);
    let mut v: Vec<u64> = Vec::new();
    let mut k: usize = 0;
    assert(v@ =~= seq![]);
    while k < KEYS
        invariant
            all == text::lines(raw@),
            rows::rows(all, stat_row_at()) == Ok::<_, Seq<char>>(kept),
            k <= KEYS,
            found@.len() == KEYS,
            v@.len() == k,
            forall|k: int|
                0 <= k < KEYS ==> #[trigger] found@[k] == last_value(kept, stat_keys()[k]),
            stat_values(kept, k as int) == Ok::<_, Seq<char>>(v@),
        decreases KEYS - k,
    {
        match found[k] {
            Some(n) => {
                v.push(n);
            },
            None => {
                proof {
                    lemma_missing_key(kept, k + 1, KEYS as int);
                }
                let mut m = "stat: missing ".to_owned();
                m.push_str(stat_key(k));
                m.push_str(" line");
                return Err(Error::new(m));
            },
        }
        k = k + 1;
    }
    Ok(metrics_of(v))
}

fn metrics_of(v: Vec<u64>) -> (r: Vec<Metric<Value>>)
    requires
        v@.len() == KEYS,
    ensures
        metric::metric_views(r@) == stat_metrics(v@),
{
    let out = vec![
        Metric::single(
            "node_boot_time_seconds",
            "Node boot time, in unixtime.",
            MetricType::Gauge,
            Value::unsigned(v[0]),
        ),
        Metric::single(
            "node_intr_total",
            "Total number of interrupts serviced.",
            MetricType::Counter,
            Value::unsigned(v[1]),
        ),
        Metric::single(
            "node_context_switches_total",
            "Total number of context switches.",
            MetricType::Counter,
            Value::unsigned(v[2]),
        ),
        Metric::single(
            "node_forks_total",
            "Total number of forks.",
            MetricType::Counter,
            Value::unsigned(v[3]),
        ),
        Metric::single(
            "node_procs_running",
            "Number of processes in runnable state.",
            MetricType::Gauge,
            Value::unsigned(v[4]),
        ),
        Metric::single(
            "node_procs_blocked",
            "Number of processes blocked waiting for I/O to complete.",
            MetricType::Gauge,
            Value::unsigned(v[5]),
        ),
        Metric::single(
            "node_softirqs_total",
            "Number of softirq calls.",
            MetricType::Counter,
            Value::unsigned(v[6]),
        ),
    ];
    assert(metric::metric_views(out@) =~= stat_metrics(v@));
    out
}

pub struct StatCollector;

impl StatCollector {
    pub fn name(&self) -> (r: &'static str)
        ensures
            r@ == "stat"@,
    {
        "stat"
    }

    /// The file that the collector reads.
    pub fn path(&self, cfg: &Config) -> (r: String)
        ensures
            r@ == cfg.proc_path_of("/proc/stat"@),
    {
        cfg.proc_path("/proc/stat")
    }

    /// The metrics, given what came of reading the file.
    pub fn collect(&self, cfg: &Config, read: &FileRead) -> (r: Result<Vec<Metric<Value>>, Error>)
        ensures
            metric::outcome(r) == match read@ {
                FileView::Contents(raw) => stat_outcome(raw),
                _ => Err(source::unreadable(cfg.proc_path_of("/proc/stat"@))),
            },
    {
        match read {
            FileRead::Contents(raw) => parse(raw.as_str()),
            _ => Err(unreadable_error(self.path(cfg).as_str())),
        }
    }
}

// ------------------------------------------------------------------------ laws

proof fn lemma_last_value(rows: Seq<(Seq<char>, u64)>, key: Seq<char>) -> (i: int)
    requires
        last_value(rows, key) is Some,
    ensures
        0 <= i < rows.len(),
        rows[i].0 == key,
        last_value(rows, key) == Some(rows[i].1),
        forall|j: int| i < j < rows.len() ==> (#[trigger] rows[j]).0 != key,
    decreases rows.len(),
{
    if rows.last().0 == key {
        rows.len() - 1
    } else {
        let front = rows.drop_last();
        let i = lemma_last_value(front, key);
        assert forall|j: int| i < j < rows.len() implies (#[trigger] rows[j]).0 != key by {
            if j < front.len() {
                assert(front[j] == rows[j]);
            }
        }
        i
    }
}

proof fn lemma_no_value(rows: Seq<(Seq<char>, u64)>, key: Seq<char>, i: int)
    requires
        0 <= i < rows.len(),
        rows[i].0 == key,
    ensures
        last_value(rows, key) is Some,
    decreases rows.len(),
{
    if i < rows.len() - 1 {
        assert(rows.drop_last()[i] == rows[i]);
        lemma_no_value(rows.drop_last(), key, i);
    }
}

proof fn lemma_values(rows: Seq<(Seq<char>, u64)>, n: int)
    requires
        0 <= n <= 7,
    ensures
        stat_values(rows, n) is Ok <==> forall|k: int|
            0 <= k < n ==> last_value(rows, #[trigger] stat_keys()[k]) is Some,
        stat_values(rows, n) is Ok ==> stat_values(rows, n)->Ok_0.len() == n && forall|k: int|
            0 <= k < n ==> last_value(rows, #[trigger] stat_keys()[k]) == Some(
                stat_values(rows, n)->Ok_0[k],
            ),
    decreases n,
{
    if n > 0 {
        lemma_values(rows, n - 1);
        assert(n - 1 < stat_keys().len());
    }
}

/// Where `/proc/stat` parses, each keyword has a family of its own, whose one
/// sample is the number that follows the keyword in the last line that starts
/// with it. The result is the position of that line.
pub proof fn every_keyword_has_its_family(raw: Seq<char>, k: int) -> (m: int)
    requires
        stat_outcome(raw) is Ok,
        0 <= k < 7,
    ensures
        ({
            let lines = text::lines(raw);
            let keys = seq![
                "btime"@,
                "intr"@,
                "ctxt"@,
                "processes"@,
                "procs_running"@,
                "procs_blocked"@,
                "softirq"@,
            ];
            let names = seq![
                "node_boot_time_seconds"@,
                "node_intr_total"@,
                "node_context_switches_total"@,
                "node_forks_total"@,
                "node_procs_running"@,
                "node_procs_blocked"@,
                "node_softirqs_total"@,
            ];
            let words = text::words(lines[m]);
            let families = stat_outcome(raw)->Ok_0;
            &&& 0 <= m < lines.len()
            &&& words.len() >= 2
            &&& words[0] == keys[k]
            &&& forall|j: int|
                m < j < lines.len() ==> text::words(#[trigger] lines[j]).len() == 0 || text::words(
                    lines[j],
                )[0] != keys[k]
            &&& number::u64_value(words[1]) is Some
            &&& families.len() == 7
            &&& families[k].name == names[k]
            &&& families[k].mtype == if k == 0 || k == 4 || k == 5 {
                MetricType::Gauge
            } else {
                MetricType::Counter
            }
            &&& families[k].samples.len() == 1
            &&& families[k].samples[0].labels.len() == 0
            &&& quantity::stands_for(
                families[k].samples[0].value,
                number::u64_value(words[1])->0 as int,
                1,
            )
        }),
{
    let lines = text::lines(raw);
    let kept = rows::rows(lines, stat_row_at())->Ok_0;
    let at = rows::rows_come_of_their_lines(lines, stat_row_at());
    let key = stat_keys()[k];
    lemma_values(kept, 7);
    let i = lemma_last_value(kept, key);
    let m = at[i];
    assert(stat_row(lines[m]) == Row::Keep(kept[i]));
    rows::the_first_fault_fails_the_file(lines, stat_row_at());
    assert forall|j: int| m < j < lines.len() implies text::words(#[trigger] lines[j]).len() == 0
        || text::words(lines[j])[0] != key by {
        assert(!(stat_row_at()(j, lines[j]) is Fail));
        if text::words(lines[j]).len() > 0 && text::words(lines[j])[0] == key {
            assert(stat_keys().contains(key));
            assert(at.contains(j));
            let b = choose|b: int| 0 <= b < at.len() && at[b] == j;
            assert(stat_row(lines[at[b]]) == Row::Keep(kept[b]));
            assert(kept[b].0 == key);
            assert(b <= i);
            if b < i {
                assert(at[b] < at[i]);
            }
        }
    }
    m
}

/// Whether the first word of a line is `key`.
pub open spec fn is_line_of(line: Seq<char>, key: Seq<char>) -> bool {
    text::words(line).len() > 0 && text::words(line)[0] == key
}

/// Whether a line is about no keyword, or has a number behind it.
pub open spec fn is_good_line(line: Seq<char>) -> bool {
    let words = text::words(line);
    words.len() == 0 || !stat_keys().contains(words[0]) || (words.len() >= 2 && number::u64_value(
        words[1],
    ) is Some)
}

/// Whether some line is about `key`.
pub open spec fn has_line_of(lines: Seq<Seq<char>>, key: Seq<char>) -> bool {
    exists|m: int| 0 <= m < lines.len() && is_line_of(#[trigger] lines[m], key)
}

proof fn lemma_key_has_value(lines: Seq<Seq<char>>, k: int)
    requires
        rows::rows(lines, stat_row_at()) is Ok,
        0 <= k < 7,
    ensures
        last_value(rows::rows(lines, stat_row_at())->Ok_0, stat_keys()[k]) is Some <==> has_line_of(
            lines,
            stat_keys()[k],
        ),
{
    let row = stat_row_at();
    let key = stat_keys()[k];
    let kept = rows::rows(lines, row)->Ok_0;
    let at = rows::rows_come_of_their_lines(lines, row);
    rows::the_first_fault_fails_the_file(lines, row);
    if last_value(kept, key) is Some {
        let i = lemma_last_value(kept, key);
        assert(row(at[i], lines[at[i]]) == Row::Keep(kept[i]));
        assert(is_line_of(lines[at[i]], key));
    }
    if has_line_of(lines, key) {
        let m = choose|m: int| 0 <= m < lines.len() && is_line_of(#[trigger] lines[m], key);
        assert(stat_keys().contains(key));
        assert(!(row(m, lines[m]) is Fail));
        assert(at.contains(m));
        let b = choose|b: int| 0 <= b < at.len() && at[b] == m;
        assert(row(at[b], lines[at[b]]) == Row::Keep(kept[b]));
        lemma_no_value(kept, key, b);
    }
}

/// `/proc/stat` parses where each keyword starts a line, and a number follows it
/// wherever it does.
#[verifier::rlimit(60)]
pub proof fn good_keywords_do_not_fail(raw: Seq<char>)
    ensures
        stat_outcome(raw) is Ok <==> {
            let lines = text::lines(raw);
            &&& forall|k: int| 0 <= k < 7 ==> has_line_of(lines, #[trigger] stat_keys()[k])
            &&& forall|m: int| 0 <= m < lines.len() ==> is_good_line(#[trigger] lines[m])
        },
{
    let lines = text::lines(raw);
    let row = stat_row_at();
    rows::the_first_fault_fails_the_file(lines, row);
    assert forall|m: int| 0 <= m < lines.len() implies (row(m, #[trigger] lines[m]) is Fail
        <==> !is_good_line(lines[m])) by {}
    if rows::rows(lines, row) is Ok {
        let kept = rows::rows(lines, row)->Ok_0;
        lemma_values(kept, 7);
        assert forall|k: int| 0 <= k < 7 implies (last_value(
            kept,
            #[trigger] stat_keys()[k],
        ) is Some <==> has_line_of(lines, stat_keys()[k])) by {
            lemma_key_has_value(lines, k);
        }
    }
}

} // verus!
