//! `/proc/stat`: per-CPU time spent in each mode.
//!
//! Emits two metric families, wire-compatible with upstream
//! `node_exporter`:
//!
//! - `node_cpu_seconds_total{cpu, mode}` counter with the modes user / nice /
//!   system / idle / iowait / irq / softirq / steal.
//! - `node_cpu_guest_seconds_total{cpu, mode}` counter with the modes user /
//!   nice. Only emitted when /proc/stat exposes the guest fields.

use vstd::prelude::*;
use vstd::slice::slice_subrange;

use crate::config::Config;
use crate::error::Error;
use crate::metric;
use crate::metric::{Metric, MetricType, MetricView, Sample, SampleView, Scale, Value, ValueView};
use crate::number;
use crate::number::{parse_u64_fields, push_decimal};
use crate::quantity;
use crate::rows;
use crate::rows::Row;
use crate::source;
use crate::source::{unreadable_error, FileRead, FileView};
use crate::text;
use crate::text::{chars_of, digit, lines_of, push_chars, string_of, strip_prefix, words_of};

verus! {

/// Linux scheduler tick rate: the kernel counts CPU time in ticks, of which
/// every supported platform has this many a second.
pub const USER_HZ: u64 = 100;

/// The number of modes of `node_cpu_seconds_total`.
pub const MAIN_MODES: usize = 8;

/// The number of fields that a row has at most.
pub const MAX_FIELDS: usize = 10;

/// The modes, in the order of the fields of a row: first those of
/// `node_cpu_seconds_total`, then those of `node_cpu_guest_seconds_total`.
pub open spec fn mode_names() -> Seq<Seq<char>> {
    seq![
        "user"@,
        "nice"@,
        "system"@,
        "idle"@,
        "iowait"@,
        "irq"@,
        "softirq"@,
        "steal"@,
        "user"@,
        "nice"@,
    ]
}

fn mode(i: usize) -> (r: &'static str)
    requires
        i < MAX_FIELDS,
    ensures
        r@ == mode_names()[i as int],
{
    match i {
        0 => "user",
        1 => "nice",
        2 => "system",
        3 => "idle",
        4 => "iowait",
        5 => "irq",
        6 => "softirq",
        7 => "steal",
        8 => "user",
        _ => "nice",
    }
}

/// The ticks that one CPU spent in each mode.
pub struct CpuRow {
    pub cpu: String,
    pub jiffies: Vec<u64>,
}

/// What a [`CpuRow`] says.
pub struct CpuRowView {
    pub cpu: Seq<char>,
    pub jiffies: Seq<u64>,
}

impl View for CpuRow {
    type V = CpuRowView;

    open spec fn view(&self) -> CpuRowView {
        CpuRowView { cpu: self.cpu@, jiffies: self.jiffies@ }
    }
}

/// What each row of `v` says.
pub open spec fn row_views(v: Seq<CpuRow>) -> Seq<CpuRowView> {
    Seq::new(v.len(), |i: int| v[i]@)
}

/// What one line of `/proc/stat` comes to. A row of a CPU is `cpu`, its
/// number, and eight fields or more, of which ten are read. The row that sums
/// up all CPUs has no number and is no row of a CPU.
pub open spec fn cpu_row(line: Seq<char>) -> Row<CpuRowView> {
    let rest = line.skip("cpu"@.len() as int);
    if !text::starts(line, "cpu"@) || rest.len() == 0 || !text::is_digit(rest[0]) {
        Row::Skip
    } else {
        let words = text::words(rest);
        let cpu = words[0];
        let fields = if words.len() - 1 > MAX_FIELDS {
            words.subrange(1, 1 + MAX_FIELDS)
        } else {
            words.skip(1)
        };
        let good = number::u64_run(fields);
        if good < fields.len() {
            Row::Fail("cpu: parsing field "@ + number::decimal(good as nat) + " for cpu"@ + cpu)
        } else if fields.len() < MAIN_MODES {
            Row::Fail(
                "cpu: cpu"@ + cpu + " has "@ + number::decimal(fields.len())
                    + " fields, need at least "@ + number::decimal(MAIN_MODES as nat),
            )
        } else {
            Row::Keep(CpuRowView { cpu, jiffies: number::u64_values(fields) })
        }
    }
}

pub open spec fn cpu_row_at() -> spec_fn(int, Seq<char>) -> Row<CpuRowView> {
    |i: int, line: Seq<char>| cpu_row(line)
}

/// The sample for field `i` of a row.
pub open spec fn cpu_sample(row: CpuRowView, i: int) -> SampleView<ValueView> {
    SampleView::new(ValueView::unsigned(row.jiffies[i]).scaled(Scale::Over(USER_HZ))).with_label(
        "cpu"@,
        row.cpu,
    ).with_label("mode"@, mode_names()[i])
}

/// One sample for each mode.
pub open spec fn main_samples() -> spec_fn(CpuRowView) -> Seq<SampleView<ValueView>> {
    |row: CpuRowView| Seq::new(MAIN_MODES as nat, |i: int| cpu_sample(row, i))
}

/// One sample for each guest mode that the row has.
pub open spec fn guest_samples() -> spec_fn(CpuRowView) -> Seq<SampleView<ValueView>> {
    |row: CpuRowView|
        Seq::new(
            (row.jiffies.len() - MAIN_MODES) as nat,
            |i: int| cpu_sample(row, MAIN_MODES + i),
        )
}

/// The families that the rows make: the guest family only where some row has
/// guest fields.
pub open spec fn cpu_metrics(rows: Seq<CpuRowView>) -> Seq<MetricView<ValueView>> {
    let main = MetricView::new(
        "node_cpu_seconds_total"@,
        "Seconds the CPUs spent in each mode."@,
        MetricType::Counter,
    ).with_samples(rows::per_row(rows, main_samples()));
    let guest = MetricView::new(
        "node_cpu_guest_seconds_total"@,
        "Seconds the CPUs spent in guests (VMs) for each mode."@,
        MetricType::Counter,
    ).with_samples(rows::per_row(rows, guest_samples()));
    if guest.samples.len() == 0 {
        seq![main]
    } else {
        seq![main, guest]
    }
}

/// What `/proc/stat` comes to: the families of its rows, or the message of
/// its first faulty row, or of its lack of rows.
pub open spec fn cpu_outcome(raw: Seq<char>) -> Result<Seq<MetricView<ValueView>>, Seq<char>> {
    match rows::rows(text::lines(raw), cpu_row_at()) {
        Ok(rows) => if rows.len() == 0 {
            Err("cpu: no per-CPU rows in /proc/stat"@)
        } else {
            Ok(cpu_metrics(rows))
        },
        Err(m) => Err(m),
    }
}

/// What one line comes to, as `cpu_row` says.
fn parse_row(line: &[char]) -> (r: Result<Option<CpuRow>, Error>)
    ensures
        match r {
            Ok(None) => cpu_row(line@) == Row::<CpuRowView>::Skip,
            Ok(Some(row)) => cpu_row(line@) == Row::Keep(row@) && MAIN_MODES <= row.jiffies@.len()
                <= MAX_FIELDS,
            Err(e) => cpu_row(line@) == Row::<CpuRowView>::Fail(e@),
        },
{
    // Per-CPU rows look like "cpu0 ...", "cpu1 ...", etc. The aggregate
    // "cpu " row is skipped: only rows of single CPUs are exported.
    let rest = match strip_prefix(line, "cpu") {
        Some(rest) => rest,
        None => {
            return Ok(None);
        },
    };
    if rest.len() == 0 || !digit(rest[0]) {
        return Ok(None);
    }
    let words = words_of(rest);
    proof {
        text::lemma_first_word(rest@);
        assert(text::views(words@).len() == words@.len());
    }
    let cpu = words[0];
    assert(text::views(words@)[0] == cpu@);
    let end = if words.len() - 1 > MAX_FIELDS {
        1 + MAX_FIELDS
    } else {
        words.len()
    };
    let fields = slice_subrange(words.as_slice(), 1, end);
    assert(text::views(fields@) =~= text::views(words@).subrange(1, end as int));
    match parse_u64_fields(fields) {
        Ok(jiffies) => if fields.len() < MAIN_MODES {
            let mut m = "cpu: cpu".to_owned();
            push_chars(&mut m, cpu);
            m.push_str(" has ");
            push_decimal(&mut m, fields.len() as u64);
            m.push_str(" fields, need at least ");
            push_decimal(&mut m, MAIN_MODES as u64);
            Err(Error::new(m))
        } else {
            Ok(Some(CpuRow { cpu: string_of(cpu), jiffies }))
        },
        Err(i) => {
            let mut m = "cpu: parsing field ".to_owned();
            push_decimal(&mut m, i as u64);
            m.push_str(" for cpu");
            push_chars(&mut m, cpu);
            Err(Error::new(m))
        },
    }
}

/// The rows of all CPUs.
fn parse_rows(raw: &str) -> (r: Result<Vec<CpuRow>, Error>)
    ensures
        match r {
            Ok(rows) => rows::rows(text::lines(raw@), cpu_row_at()) == Ok::<_, Seq<char>>(
                row_views(rows@),
            ) && forall|i: int| 0 <= i < rows@.len() ==> MAIN_MODES <= (#[trigger] rows@[i]).jiffies@.len()
                <= MAX_FIELDS,
            Err(e) => rows::rows(text::lines(raw@), cpu_row_at()) == Err::<Seq<CpuRowView>, _>(e@),
        },
{
    let chars = chars_of(raw);
    let lines = lines_of(chars.as_slice());
    let ghost all = text::lines(raw@);
    let mut out: Vec<CpuRow> = Vec::new();
    let mut i: usize = 0;
    assert(row_views(out@) =~= seq![]);
    while i < lines.len()
        invariant
            all == text::lines(raw@),
            text::views(lines@) == all,
            i <= lines@.len(),
            rows::rows(all.take(i as int), cpu_row_at()) == Ok::<_, Seq<char>>(row_views(out@)),
            forall|i: int| 0 <= i < out@.len() ==> MAIN_MODES <= (#[trigger] out@[i]).jiffies@.len()
                <= MAX_FIELDS,
        decreases lines@.len() - i,
    {
        proof {
            assert(all[i as int] == lines@[i as int]@);
            rows::lemma_next_row(all, cpu_row_at(), i as int);
        }
        let ghost before = row_views(out@);
        match parse_row(lines[i]) {
            Ok(Some(row)) => {
                out.push(row);
                assert(row_views(out@) =~= before.push(row@));
            },
            Ok(None) => {},
            Err(e) => {
                proof {
                    rows::lemma_failed_row(all, cpu_row_at(), i + 1);
                }
                return Err(e);
            },
        }
        i = i + 1;
    }
    assert(all.take(all.len() as int) =~= all);
    Ok(out)
}

/// Adds the samples for the fields from `from` up to `to` of a row.
fn push_samples(metric: &mut Metric<Value>, row: &CpuRow, from: usize, to: usize)
    requires
        from <= to <= row.jiffies@.len(),
        to <= MAX_FIELDS,
    ensures
        final(metric)@ == old(metric)@.with_samples(
            old(metric)@.samples + Seq::new(
                (to - from) as nat,
                |i: int| cpu_sample(row@, from + i),
            ),
        ),
{
    let mut i: usize = from;
    let ghost added = |n: int| Seq::new((n - from) as nat, |i: int| cpu_sample(row@, from + i));
    assert(metric@.samples =~= old(metric)@.samples + added(from as int));
    while i < to
        invariant
            from <= i <= to <= row.jiffies@.len(),
            to <= MAX_FIELDS,
            added == (|n: int| Seq::new((n - from) as nat, |i: int| cpu_sample(row@, from + i))),
            metric@ == old(metric)@.with_samples(old(metric)@.samples + added(i as int)),
        decreases to - i,
    {
        let value = Value::unsigned(row.jiffies[i]).scaled(Scale::Over(USER_HZ));
        metric.push(
            Sample::new(value).with_label("cpu", row.cpu.as_str()).with_label("mode", mode(i)),
        );
        proof {
            assert(old(metric)@.samples + added(i + 1) =~= (old(metric)@.samples + added(
                i as int,
            )).push(cpu_sample(row@, i as int)));
        }
        i = i + 1;
    }
}

/// The families that the rows make.
fn metrics_of(rows: &Vec<CpuRow>) -> (r: Vec<Metric<Value>>)
    requires
        forall|i: int| 0 <= i < rows@.len() ==> MAIN_MODES <= (#[trigger] rows@[i]).jiffies@.len()
            <= MAX_FIELDS,
    ensures
        metric::metric_views(r@) == cpu_metrics(row_views(rows@)),
{
    let mut main = Metric::new(
        "node_cpu_seconds_total",
        "Seconds the CPUs spent in each mode.",
        MetricType::Counter,
    );
    let mut guest = Metric::new(
        "node_cpu_guest_seconds_total",
        "Seconds the CPUs spent in guests (VMs) for each mode.",
        MetricType::Counter,
    );
    let ghost all = row_views(rows@);
    let ghost main0 = main@;
    let ghost guest0 = guest@;
    let mut i: usize = 0;
    while i < rows.len()
        invariant
            i <= rows@.len(),
            all == row_views(rows@),
            forall|i: int| 0 <= i < rows@.len() ==> MAIN_MODES <= (#[trigger] rows@[i]).jiffies@.len()
                <= MAX_FIELDS,
            main@ == main0.with_samples(rows::per_row(all.take(i as int), main_samples())),
            guest@ == guest0.with_samples(rows::per_row(all.take(i as int), guest_samples())),
        decreases rows@.len() - i,
    {
        let row = &rows[i];
        let n = row.jiffies.len();
        push_samples(&mut main, row, 0, MAIN_MODES);
        push_samples(&mut guest, row, MAIN_MODES, n);
        proof {
            assert(all.take(i + 1).drop_last() =~= all.take(i as int));
            assert(Seq::new(MAIN_MODES as nat, |k: int| cpu_sample(row@, 0 + k))
                =~= main_samples()(row@));
            assert(Seq::new((n - MAIN_MODES) as nat, |k: int| cpu_sample(row@, MAIN_MODES + k))
                =~= guest_samples()(row@));
        }
        i = i + 1;
    }
    assert(all.take(all.len() as int) =~= all);
    let mut out = vec![main];
    if guest.samples.len() > 0 {
        out.push(guest);
        assert(metric::metric_views(out@) =~= seq![main@, guest@]);
    } else {
        assert(metric::metric_views(out@) =~= seq![main@]);
    }
    out
}

/// Parses `/proc/stat`.
pub fn parse(raw: &str) -> (r: Result<Vec<Metric<Value>>, Error>)
    ensures
        metric::outcome(r) == cpu_outcome(raw@),
{
    let rows = match parse_rows(raw) {
        Ok(rows) => rows,
        Err(e) => {
            return Err(e);
        },
    };
    if rows.len() == 0 {
        return Err(Error::new("cpu: no per-CPU rows in /proc/stat".to_owned()));
    }
    Ok(metrics_of(&rows))
}

pub struct CpuCollector;

impl CpuCollector {
    pub fn name(&self) -> (r: &'static str)
        ensures
            r@ == "cpu"@,
    {
        "cpu"
    }

    /// The file that the collector reads.
    pub fn path(&self, cfg: &Config) -> (r: String)
        ensures
            r@ == cfg.proc_path_of("/proc/stat"@),
    {
        cfg.proc_path("/proc/stat")
    }

    /// The metrics, given what came of reading the file.
    pub fn collect(&self, cfg: &Config, read: &FileRead) -> (r: Result<Vec<Metric<Value>>, Error>)
        ensures
            metric::outcome(r) == match read@ {
                FileView::Contents(raw) => cpu_outcome(raw),
                _ => Err(source::unreadable(cfg.proc_path_of("/proc/stat"@))),
            },
    {
        match read {
            FileRead::Contents(raw) => parse(raw.as_str()),
            _ => Err(unreadable_error(self.path(cfg).as_str())),
        }
    }
}

// ------------------------------------------------------------------------ laws

/// The row of CPU `n` is `cpu`, the number, and eight to ten numbers behind
/// spaces. Every such line is kept, whatever the number of the CPU, with that
/// number and those ticks.
pub proof fn every_cpu_has_its_row(n: nat, ticks: Seq<Seq<char>>)
    requires
        8 <= ticks.len() <= 10,
        forall|j: int| 0 <= j < ticks.len() ==> number::u64_value(#[trigger] ticks[j]) is Some,
    ensures
        ({
            let row = cpu_row("cpu"@ + number::decimal(n) + text::spaced(ticks));
            row is Keep && row->Keep_0.cpu == number::decimal(n) && row->Keep_0.jiffies.len()
                == ticks.len() && forall|j: int|
                0 <= j < ticks.len() ==> Some(#[trigger] row->Keep_0.jiffies[j])
                    == number::u64_value(ticks[j])
        }),
{
    reveal_strlit("cpu");
    let id = number::decimal(n);
    let rest = id + text::spaced(ticks);
    let line = "cpu"@ + id + text::spaced(ticks);
    number::decimals_are_u64s(n);
    number::decimal_reads_back(n);
    assert(text::is_digit(id[0]));
    assert(line.take(3) =~= "cpu"@);
    assert(line.skip(3) =~= rest);
    assert forall|j: int| 0 <= j < ticks.len() implies text::is_word(#[trigger] ticks[j]) by {
        assert(number::u64_value(ticks[j]) is Some);
        number::numbers_are_words(ticks[j]);
    }
    text::words_come_apart(id, ticks);
    let words = text::words(rest);
    assert(words.skip(1) =~= ticks);
    assert(words[0] == id);
    number::lemma_u64_run(ticks, ticks.len() as int);
}

/// Whether a line is the row of a CPU: a digit follows `cpu`.
pub open spec fn is_cpu_line() -> spec_fn(Seq<char>) -> bool {
    |line: Seq<char>|
        line.len() > 3 && line[0] == 'c' && line[1] == 'p' && line[2] == 'u' && text::is_digit(
            line[3],
        )
}

/// Rows of CPUs are those lines, and no others.
proof fn lemma_cpu_lines(lines: Seq<Seq<char>>)
    ensures
        forall|k: int|
            0 <= k < lines.len() ==> (#[trigger] is_cpu_line()(lines[k]) <==> !(cpu_row_at()(
                k,
                lines[k],
            ) is Skip)),
{
    let p = is_cpu_line();
    reveal_strlit("cpu");
    assert forall|k: int| 0 <= k < lines.len() implies (#[trigger] p(lines[k]) <==> !(cpu_row_at()(
        k,
        lines[k],
    ) is Skip)) by {
        let line = lines[k];
        if line.len() > 3 {
            assert(line.skip(3)[0] == line[3]);
            if p(line) {
                assert(line.take(3) =~= "cpu"@);
            }
            if text::starts(line, "cpu"@) {
                assert(line.take(3)[0] == line[0] && line.take(3)[1] == line[1] && line.take(3)[2]
                    == line[2]);
            }
        }
    }
}

/// The fields of a row that is kept.
proof fn lemma_kept_row(line: Seq<char>, row: CpuRowView)
    requires
        cpu_row(line) == Row::Keep(row),
    ensures
        ({
            let words = text::words(line.skip(3));
            &&& words.len() >= 9
            &&& row.cpu == words[0]
            &&& row.jiffies.len() == if words.len() > 11 {
                10
            } else {
                words.len() - 1
            }
            &&& forall|j: int|
                0 <= j < row.jiffies.len() ==> Some(#[trigger] row.jiffies[j]) == number::u64_value(
                    words[j + 1],
                )
        }),
{
    reveal_strlit("cpu");
    let words = text::words(line.skip(3));
    let fields = if words.len() - 1 > MAX_FIELDS {
        words.subrange(1, 1 + MAX_FIELDS)
    } else {
        words.skip(1)
    };
    number::lemma_u64_run_meaning(fields);
    assert forall|j: int| 0 <= j < row.jiffies.len() implies Some(#[trigger] row.jiffies[j])
        == number::u64_value(words[j + 1]) by {
        assert(fields[j] == words[j + 1]);
        assert(number::u64_value(fields[j]) is Some);
    }
}

/// Where `/proc/stat` parses, each row of a CPU has eight samples in the first
/// family: one for each mode, labelled with the CPU's own number, which is
/// spelled behind `cpu`, and with the ticks of that row, a hundred to the second.
/// Rows come in order, and there are no other samples.
pub proof fn every_cpu_has_its_seconds(raw: Seq<char>, i: int, j: int)
    requires
        cpu_outcome(raw) is Ok,
        0 <= i < rows::positions(text::lines(raw), is_cpu_line()).len(),
        0 <= j < 8,
    ensures
        ({
            let family = cpu_outcome(raw)->Ok_0[0];
            let lines = rows::positions(text::lines(raw), is_cpu_line());
            let words = text::words(text::lines(raw)[lines[i]].skip(3));
            let sample = family.samples[8 * i + j];
            let modes = seq![
                "user"@,
                "nice"@,
                "system"@,
                "idle"@,
                "iowait"@,
                "irq"@,
                "softirq"@,
                "steal"@,
            ];
            &&& family.name == "node_cpu_seconds_total"@
            &&& family.mtype == MetricType::Counter
            &&& family.samples.len() == 8 * lines.len()
            &&& words.len() >= 9
            &&& sample.labels == seq![("cpu"@, words[0]), ("mode"@, modes[j])]
            &&& number::u64_value(words[j + 1]) is Some
            &&& quantity::stands_for(
                sample.value,
                number::u64_value(words[j + 1])->0 as int,
                100,
            )
        }),
{
    let lines = text::lines(raw);
    let at = rows::positions(lines, is_cpu_line());
    let all = rows::rows(lines, cpu_row_at())->Ok_0;
    lemma_cpu_lines(lines);
    rows::kept_lines_are_the_rows(lines, cpu_row_at(), is_cpu_line());
    rows::lemma_positions(lines, is_cpu_line());
    rows::rows_of_equal_length(all, main_samples(), 8);
    let row = all[i];
    lemma_kept_row(lines[at[i]], row);
    assert(rows::item_at(cpu_outcome(raw)->Ok_0[0].samples, 8, i, j) == main_samples()(row)[j]);
    let sample = cpu_sample(row, j);
    assert(main_samples()(row)[j] == sample);
    assert(Some(row.jiffies[j]) == number::u64_value(text::words(lines[at[i]].skip(3))[j + 1]));
    assert(sample.labels =~= seq![("cpu"@, row.cpu), ("mode"@, mode_names()[j])]);
}

/// Where every row has the two fields of guests, the second family holds them:
/// two samples for each row, of its own CPU and with its ninth and tenth ticks.
pub proof fn every_guest_has_its_seconds(raw: Seq<char>, i: int, j: int)
    requires
        cpu_outcome(raw) is Ok,
        forall|k: int|
            0 <= k < text::lines(raw).len() && is_cpu_line()(#[trigger] text::lines(raw)[k])
                ==> text::words(text::lines(raw)[k].skip(3)).len() >= 11,
        0 <= i < rows::positions(text::lines(raw), is_cpu_line()).len(),
        0 <= j < 2,
    ensures
        ({
            let families = cpu_outcome(raw)->Ok_0;
            let lines = rows::positions(text::lines(raw), is_cpu_line());
            let words = text::words(text::lines(raw)[lines[i]].skip(3));
            let sample = families[1].samples[2 * i + j];
            &&& families.len() == 2
            &&& families[1].name == "node_cpu_guest_seconds_total"@
            &&& families[1].mtype == MetricType::Counter
            &&& families[1].samples.len() == 2 * lines.len()
            &&& sample.labels == seq![("cpu"@, words[0]), ("mode"@, seq!["user"@, "nice"@][j])]
            &&& number::u64_value(words[j + 9]) is Some
            &&& quantity::stands_for(
                sample.value,
                number::u64_value(words[j + 9])->0 as int,
                100,
            )
        }),
{
    let lines = text::lines(raw);
    let at = rows::positions(lines, is_cpu_line());
    let all = rows::rows(lines, cpu_row_at())->Ok_0;
    lemma_cpu_lines(lines);
    rows::kept_lines_are_the_rows(lines, cpu_row_at(), is_cpu_line());
    rows::lemma_positions(lines, is_cpu_line());
    assert forall|k: int| 0 <= k < all.len() implies guest_samples()(#[trigger] all[k]).len()
        == 2 by {
        lemma_kept_row(lines[at[k]], all[k]);
    }
    rows::rows_of_equal_length(all, guest_samples(), 2);
    let row = all[i];
    lemma_kept_row(lines[at[i]], row);
    let samples = rows::per_row(all, guest_samples());
    assert(rows::item_at(samples, 2, i, j) == guest_samples()(row)[j]);
    let sample = cpu_sample(row, j + 8);
    assert(guest_samples()(row)[j] == sample);
    assert(Some(row.jiffies[j + 8]) == number::u64_value(
        text::words(lines[at[i]].skip(3))[j + 9],
    ));
    assert(sample.labels =~= seq![("cpu"@, row.cpu), ("mode"@, mode_names()[j + 8])]);
    assert(mode_names()[8] == "user"@ && mode_names()[9] == "nice"@);
}

/// Where no row has a field of guests, there is the first family alone.
pub proof fn no_guests_no_family(raw: Seq<char>)
    requires
        cpu_outcome(raw) is Ok,
        forall|k: int|
            0 <= k < text::lines(raw).len() && is_cpu_line()(#[trigger] text::lines(raw)[k])
                ==> text::words(text::lines(raw)[k].skip(3)).len() <= 9,
    ensures
        cpu_outcome(raw)->Ok_0.len() == 1,
{
    let lines = text::lines(raw);
    let at = rows::positions(lines, is_cpu_line());
    let all = rows::rows(lines, cpu_row_at())->Ok_0;
    lemma_cpu_lines(lines);
    rows::kept_lines_are_the_rows(lines, cpu_row_at(), is_cpu_line());
    rows::lemma_positions(lines, is_cpu_line());
    assert forall|k: int| 0 <= k < all.len() implies guest_samples()(#[trigger] all[k]).len()
        == 0 by {
        lemma_kept_row(lines[at[k]], all[k]);
    }
    rows::rows_of_equal_length(all, guest_samples(), 0);
}

/// `/proc/stat` fails where it has no row of a CPU, and where one of them has
/// fewer than eight fields or a field among the first ten that is no number.
/// Otherwise it does not.
pub proof fn good_rows_do_not_fail(raw: Seq<char>)
    ensures
        cpu_outcome(raw) is Ok <==> {
            let lines = text::lines(raw);
            &&& exists|k: int| 0 <= k < lines.len() && is_cpu_line()(#[trigger] lines[k])
            &&& forall|k: int|
                0 <= k < lines.len() && is_cpu_line()(#[trigger] lines[k]) ==> {
                    let words = text::words(lines[k].skip(3));
                    words.len() >= 9 && forall|j: int|
                        1 <= j <= 10 && j < words.len() ==> number::u64_value(
                            #[trigger] words[j],
                        ) is Some
                }
        },
{
    let lines = text::lines(raw);
    let p = is_cpu_line();
    reveal_strlit("cpu");
    lemma_cpu_lines(lines);
    rows::the_first_fault_fails_the_file(lines, cpu_row_at());
    rows::lemma_positions(lines, p);
    assert forall|k: int| 0 <= k < lines.len() && p(#[trigger] lines[k]) implies (cpu_row_at()(
        k,
        lines[k],
    ) is Fail <==> !{
        let words = text::words(lines[k].skip(3));
        words.len() >= 9 && forall|j: int|
            1 <= j <= 10 && j < words.len() ==> number::u64_value(#[trigger] words[j]) is Some
    }) by {
        let words = text::words(lines[k].skip(3));
        text::lemma_first_word(lines[k].skip(3));
        let fields = if words.len() - 1 > MAX_FIELDS {
            words.subrange(1, 1 + MAX_FIELDS)
        } else {
            words.skip(1)
        };
        number::lemma_u64_run_meaning(fields);
        assert forall|j: int| 1 <= j <= 10 && j < words.len() implies #[trigger] words[j]
            == fields[j - 1] by {}
        if number::u64_run(fields) < fields.len() {
            let b = number::u64_run(fields);
            assert(number::u64_value(words[b + 1]) is None);
        } else {
            assert forall|j: int| 1 <= j <= 10 && j < words.len() implies number::u64_value(
                #[trigger] words[j],
            ) is Some by {
                assert(number::u64_value(fields[j - 1]) is Some);
            }
        }
    }
    if rows::rows(lines, cpu_row_at()) is Ok {
        rows::kept_lines_are_the_rows(lines, cpu_row_at(), p);
        let at = rows::positions(lines, p);
        if at.len() > 0 {
            assert(p(lines[at[0]]));
        }
        if exists|k: int| 0 <= k < lines.len() && p(#[trigger] lines[k]) {
            let k = choose|k: int| 0 <= k < lines.len() && p(#[trigger] lines[k]);
            assert(at.contains(k));
        }
    } else {
        assert(exists|k: int| 0 <= k < lines.len() && cpu_row_at()(k, #[trigger] lines[k]) is Fail);
    }
}

/// The number of guest fields of a row.
pub open spec fn guest_count(line: Seq<char>) -> int {
    let n = text::words(line.skip(3)).len() as int;
    if n >= 11 {
        2
    } else if n == 10 {
        1
    } else {
        0
    }
}

/// The number of guest fields of the first `i` of the lines at `at`.
pub open spec fn guests_before(lines: Seq<Seq<char>>, at: Seq<int>, i: int) -> int
    decreases i,
{
    if i <= 0 {
        0
    } else {
        guests_before(lines, at, i - 1) + guest_count(lines[at[i - 1]])
    }
}

proof fn lemma_guests(raw: Seq<char>, i: int)
    requires
        cpu_outcome(raw) is Ok,
        0 <= i <= rows::positions(text::lines(raw), is_cpu_line()).len(),
    ensures
        ({
            let lines = text::lines(raw);
            let at = rows::positions(lines, is_cpu_line());
            let all = rows::rows(lines, cpu_row_at())->Ok_0;
            &&& all.len() == at.len()
            &&& rows::per_row(all.take(i), guest_samples()).len() == guests_before(lines, at, i)
        }),
    decreases i,
{
    let lines = text::lines(raw);
    let at = rows::positions(lines, is_cpu_line());
    let all = rows::rows(lines, cpu_row_at())->Ok_0;
    lemma_cpu_lines(lines);
    rows::kept_lines_are_the_rows(lines, cpu_row_at(), is_cpu_line());
    if i > 0 {
        lemma_guests(raw, i - 1);
        assert(all.take(i).drop_last() =~= all.take(i - 1));
        assert(all.take(i).last() == all[i - 1]);
        lemma_kept_row(lines[at[i - 1]], all[i - 1]);
    }
}

/// Rows may have guest fields or not: the second family holds those that are
/// there, row after row, and is there where there are some.
pub proof fn guests_follow_their_rows(raw: Seq<char>, i: int, j: int)
    requires
        cpu_outcome(raw) is Ok,
        0 <= i < rows::positions(text::lines(raw), is_cpu_line()).len(),
    ensures
        ({
            let families = cpu_outcome(raw)->Ok_0;
            let lines = text::lines(raw);
            let at = rows::positions(lines, is_cpu_line());
            let words = text::words(lines[at[i]].skip(3));
            let total = guests_before(lines, at, at.len() as int);
            &&& families.len() == if total > 0 {
                2int
            } else {
                1
            }
            &&& total > 0 ==> families[1].samples.len() == total
            &&& 0 <= j < guest_count(lines[at[i]]) ==> {
                let sample = families[1].samples[guests_before(lines, at, i) + j];
                &&& families.len() == 2
                &&& sample.labels == seq![("cpu"@, words[0]), ("mode"@, seq!["user"@, "nice"@][j])]
                &&& number::u64_value(words[j + 9]) is Some
                &&& quantity::stands_for(
                    sample.value,
                    number::u64_value(words[j + 9])->0 as int,
                    100,
                )
            }
        }),
{
    let families = cpu_outcome(raw)->Ok_0;
    let lines = text::lines(raw);
    let at = rows::positions(lines, is_cpu_line());
    let all = rows::rows(lines, cpu_row_at())->Ok_0;
    let f = guest_samples();
    let samples = rows::per_row(all, f);
    lemma_guests(raw, at.len() as int);
    lemma_guests(raw, i);
    assert(all.take(all.len() as int) =~= all);
    lemma_cpu_lines(lines);
    rows::kept_lines_are_the_rows(lines, cpu_row_at(), is_cpu_line());
    let row = all[i];
    lemma_kept_row(lines[at[i]], row);
    if 0 <= j < guest_count(lines[at[i]]) {
        rows::lemma_per_row_splits(all, f, i + 1);
        assert(all.take(i + 1).drop_last() =~= all.take(i));
        assert(all.take(i + 1).last() == row);
        let n = rows::per_row(all.take(i), f).len() as int;
        assert(rows::per_row(all.take(i + 1), f) == rows::per_row(all.take(i), f) + f(row));
        assert(samples[n + j] == f(row)[j]);
        let sample = cpu_sample(row, j + 8);
        assert(f(row)[j] == sample);
        assert(Some(row.jiffies[j + 8]) == number::u64_value(
            text::words(lines[at[i]].skip(3))[j + 9],
        ));
        assert(sample.labels =~= seq![("cpu"@, row.cpu), ("mode"@, mode_names()[j + 8])]);
        assert(mode_names()[8] == "user"@ && mode_names()[9] == "nice"@);
    }
}

} // verus!
