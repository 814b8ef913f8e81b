//! `/proc/pressure/{cpu,memory,io}`: Pressure Stall Information.
//!
//! PSI is a feature of Linux 4.20 and later (it needs `CONFIG_PSI=y` and, on
//! some distributions, `psi=1` on the kernel command line). Each resource file
//! looks like:
//!
//! ```text
//! some avg10=0.00 avg60=0.00 avg300=0.00 total=12345
//! full avg10=0.00 avg60=0.00 avg300=0.00 total=67890
//! ```
//!
//! Of `/proc/pressure/cpu` only the `some` line counts. Two counters are
//! exposed per resource:
//!
//! - `node_pressure_<resource>_waiting_seconds_total`, from the total of `some`.
//! - `node_pressure_<resource>_stalled_seconds_total`, from the total of
//!   `full`, for `memory` and `io` only.
//!
//! The totals are in microseconds.
//!
//! A resource whose file is missing is skipped. Only when *none* of the files
//! exist does the collector fail, so that its success metric tells that PSI is
//! unavailable on this host.

use vstd::prelude::*;
use vstd::slice::slice_subrange;

use crate::config::Config;
use crate::error::Error;
use crate::metric;
use crate::metric::{Metric, MetricType, MetricView, Scale, Value, ValueView};
use crate::number;
use crate::number::parse_u64;
use crate::quantity;
use crate::rows;
use crate::rows::Row;
use crate::source;
use crate::source::{unreadable_error, FileRead, FileView};
use crate::text;
use crate::text::{
    chars_of, lines_of, push_quoted_chars, same, same_str, strip_prefix, trimmed, words_of,
};

verus! {

/// Microseconds in a second.
pub const MICRO: u64 = 1_000_000;

// -------------------------------------------------------------------- parsing

/// The total that a line tells: the number of the first field that starts with
/// `total=`.
pub open spec fn total_of(fields: Seq<Seq<char>>, kind: Seq<char>) -> Result<u64, Seq<char>>
    decreases fields.len(),
{
    if fields.len() == 0 {
        Err("pressure: missing total= on "@ + kind + " line"@)
    } else if text::starts(fields[0], "total="@) {
        match number::u64_value(fields[0].skip("total="@.len() as int)) {
            Some(n) => Ok(n),
            None => Err("pressure: parsing total= on "@ + kind + " line"@),
        }
    } else {
        total_of(fields.skip(1), kind)
    }
}

/// A total and whether it is that of a `full` line.
pub open spec fn psi_row(line: Seq<char>) -> Row<(bool, u64)> {
    let t = text::trim(line);
    let words = text::words(t);
    if t.len() == 0 {
        Row::Skip
    } else if words.len() == 0 {
        Row::Fail("pressure: empty line"@)
    } else if words[0] == "some"@ || words[0] == "full"@ {
        match total_of(words.skip(1), words[0]) {
            Ok(n) => Row::Keep((words[0] == "full"@, n)),
            Err(m) => Row::Fail(m),
        }
    } else {
        Row::Fail("pressure: unknown line kind "@ + text::debug_form(words[0]))
    }
}

pub open spec fn psi_row_at() -> spec_fn(int, Seq<char>) -> Row<(bool, u64)> {
    |i: int, line: Seq<char>| psi_row(line)
}

/// The total of the last line of a kind.
pub open spec fn last_total(rows: Seq<(bool, u64)>, full: bool) -> Option<u64>
    decreases rows.len(),
{
    if rows.len() == 0 {
        None
    } else if rows.last().0 == full {
        Some(rows.last().1)
    } else {
        last_total(rows.drop_last(), full)
    }
}

/// The totals of the `some` line, which must be there, and of the `full` line.
pub open spec fn psi_totals(raw: Seq<char>) -> Result<(u64, Option<u64>), Seq<char>> {
    match rows::rows(text::lines(raw), psi_row_at()) {
        Ok(rows) => match last_total(rows, false) {
            Some(some) => Ok((some, last_total(rows, true))),
            None => Err("pressure: missing 'some' line"@),
        },
        Err(m) => Err(m),
    }
}

/// Finds the total among the fields of a line.
fn extract_total(fields: &[&[char]], kind: &str) -> (r: Result<u64, Error>)
    ensures
        match r {
            Ok(n) => total_of(text::views(fields@), kind@) == Ok::<_, Seq<char>>(n),
            Err(e) => total_of(text::views(fields@), kind@) == Err::<u64, _>(e@),
        },
{
    let ghost all = text::views(fields@);
    let mut i: usize = 0;
    assert(all.skip(0) =~= all);
    while i < fields.len()
        invariant
            i <= fields@.len(),
            all == text::views(fields@),
            total_of(all, kind@) == total_of(all.skip(i as int), kind@),
        decreases fields@.len() - i,
    {
        proof {
            assert(all.skip(i as int)[0] == fields@[i as int]@);
            assert(all.skip(i as int).skip(1) =~= all.skip(i + 1));
        }
        match strip_prefix(fields[i], "total=") {
            Some(v) => {
                return match parse_u64(v) {
                    Some(n) => Ok(n),
                    None => {
                        let mut m = "pressure: parsing total= on ".to_owned();
                        m.push_str(kind);
                        m.push_str(" line");
                        Err(Error::new(m))
                    },
                };
            },
            None => {},
        }
        i = i + 1;
    }
    let mut m = "pressure: missing total= on ".to_owned();
    m.push_str(kind);
    m.push_str(" line");
    Err(Error::new(m))
}

fn parse_row(line: &[char]) -> (r: Result<Option<(bool, u64)>, Error>)
    ensures
        match r {
            Ok(None) => psi_row(line@) == Row::<(bool, u64)>::Skip,
            Ok(Some(row)) => psi_row(line@) == Row::Keep(row),
            Err(e) => psi_row(line@) == Row::<(bool, u64)>::Fail(e@),
        },
{
    let t = trimmed(line);
    if t.len() == 0 {
        return Ok(None);
    }
    let words = words_of(t);
    assert(text::views(words@).len() == words@.len());
    if words.len() == 0 {
        return Err(Error::new("pressure: empty line".to_owned()));
    }
    let kind = words[0];
    assert(text::views(words@)[0] == kind@);
    let full = same(kind, "full");
    if !full && !same(kind, "some") {
        let mut m = "pressure: unknown line kind ".to_owned();
        push_quoted_chars(&mut m, kind);
        return Err(Error::new(m));
    }
    let fields = slice_subrange(words.as_slice(), 1, words.len());
    assert(text::views(fields@) =~= text::views(words@).skip(1));
    let total = if full {
        extract_total(fields, "full")
    } else {
        extract_total(fields, "some")
    };
    match total {
        Ok(n) => Ok(Some((full, n))),
        Err(e) => Err(e),
    }
}

/// Parses one file. The totals are those of the `some` line and of the `full`
/// line, which may be missing.
pub fn parse(raw: &str) -> (r: Result<(u64, Option<u64>), Error>)
    ensures
        match r {
            Ok(totals) => psi_totals(raw@) == Ok::<_, Seq<char>>(totals),
            Err(e) => psi_totals(raw@) == Err::<(u64, Option<u64>), _>(e@),
        },
{
    let chars = chars_of(raw);
    let lines = lines_of(chars.as_slice());
    let ghost all = text::lines(raw@);
    let ghost mut kept: Seq<(bool, u64)> = seq![];
    let mut some_total: Option<u64> = None;
    let mut full_total: Option<u64> = None;
    let mut i: usize = 0;
    while i < lines.len()
        invariant
            all == text::lines(raw@),
            text::views(lines@) == all,
            i <= lines@.len(),
            rows::rows(all.take(i as int), psi_row_at()) == Ok::<_, Seq<char>>(kept),
            some_total == last_total(kept, false),
            full_total == last_total(kept, true),
        decreases lines@.len() - i,
    {
        proof {
            assert(all[i as int] == lines@[i as int]@);
            rows::lemma_next_row(all, psi_row_at(), i as int);
        }
        match parse_row(lines[i]) {
            Ok(Some((full, n))) => {
                if full {
                    full_total = Some(n);
                } else {
                    some_total = Some(n);
                }
                proof {
                    assert(kept.push((full, n)).drop_last() =~= kept);
                    kept = kept.push((full, n));
                }
            },
            Ok(None) => {},
            Err(e) => {
                proof {
                    rows::lemma_failed_row(all, psi_row_at(), i + 1);
                }
                return Err(e);
            },
        }
        i = i + 1;
    }
    assert(all.take(all.len() as int) =~= all);
    match some_total {
        Some(some) => Ok((some, full_total)),
        None => Err(Error::new("pressure: missing 'some' line".to_owned())),
    }
}

// ------------------------------------------------------------------- families

/// The time that processes have waited for a resource.
pub open spec fn waiting(resource: Seq<char>, total_us: u64) -> MetricView<ValueView> {
    MetricView::single(
        "node_pressure_"@ + resource + "_waiting_seconds_total"@,
        if resource == "cpu"@ {
            "Total time in seconds that processes have waited for CPU time"@
        } else if resource == "io"@ {
            "Total time in seconds that processes have waited due to IO congestion"@
        } else if resource == "memory"@ {
            "Total time in seconds that processes have waited for memory"@
        } else {
            "Total time in seconds that processes have waited for this resource"@
        },
        MetricType::Counter,
        ValueView::unsigned(total_us).scaled(Scale::Over(MICRO)),
    )
}

/// The time that no process could make progress for want of a resource.
pub open spec fn stalled(resource: Seq<char>, total_us: u64) -> MetricView<ValueView> {
    MetricView::single(
        "node_pressure_"@ + resource + "_stalled_seconds_total"@,
        if resource == "io"@ {
            "Total time in seconds no process could make progress due to IO congestion"@
        } else if resource == "memory"@ {
            "Total time in seconds no process could make progress due to memory congestion"@
        } else {
            "Total time in seconds no process could make progress due to congestion"@
        },
        MetricType::Counter,
        ValueView::unsigned(total_us).scaled(Scale::Over(MICRO)),
    )
}

pub fn waiting_metric(resource: &str, total_us: u64) -> (r: Metric<Value>)
    ensures
        r@ == waiting(resource@, total_us),
{
    let help = if same_str(resource, "cpu") {
        "Total time in seconds that processes have waited for CPU time"
    } else if same_str(resource, "io") {
        "Total time in seconds that processes have waited due to IO congestion"
    } else if same_str(resource, "memory") {
        "Total time in seconds that processes have waited for memory"
    } else {
        "Total time in seconds that processes have waited for this resource"
    };
    let mut name = "node_pressure_".to_owned();
    name.push_str(resource);
    name.push_str("_waiting_seconds_total");
    Metric::single(
        name.as_str(),
        help,
        MetricType::Counter,
        Value::unsigned(total_us).scaled(Scale::Over(MICRO)),
    )
}

pub fn stalled_metric(resource: &str, total_us: u64) -> (r: Metric<Value>)
    ensures
        r@ == stalled(resource@, total_us),
{
    let help = if same_str(resource, "io") {
        "Total time in seconds no process could make progress due to IO congestion"
    } else if same_str(resource, "memory") {
        "Total time in seconds no process could make progress due to memory congestion"
    } else {
        "Total time in seconds no process could make progress due to congestion"
    };
    let mut name = "node_pressure_".to_owned();
    name.push_str(resource);
    name.push_str("_stalled_seconds_total");
    Metric::single(
        name.as_str(),
        help,
        MetricType::Counter,
        Value::unsigned(total_us).scaled(Scale::Over(MICRO)),
    )
}

/// The families of a resource whose file was read. Where `expect_full` holds,
/// the file must have a `full` line.
pub open spec fn psi_metrics(
    resource: Seq<char>,
    path: Seq<char>,
    raw: Seq<char>,
    expect_full: bool,
) -> Result<Seq<MetricView<ValueView>>, Seq<char>> {
    match psi_totals(raw) {
        Err(m) => Err("parsing "@ + path + ": "@ + m),
        Ok((some, full)) => if !expect_full {
            Ok(seq![waiting(resource, some)])
        } else {
            match full {
                Some(full) => Ok(seq![waiting(resource, some), stalled(resource, full)]),
                None => Err("pressure: "@ + path + " missing required 'full' line"@),
            }
        },
    }
}

/// `before` and the families of one resource more, given what came of reading
/// its file. A missing file adds nothing.
pub open spec fn with_resource(
    before: Result<Seq<MetricView<ValueView>>, Seq<char>>,
    resource: Seq<char>,
    path: Seq<char>,
    read: FileView,
    expect_full: bool,
) -> Result<Seq<MetricView<ValueView>>, Seq<char>> {
    match before {
        Err(m) => Err(m),
        Ok(metrics) => match read {
            FileView::NotFound => Ok(metrics),
            FileView::Failed => Err(source::unreadable(path)),
            FileView::Contents(raw) => match psi_metrics(resource, path, raw, expect_full) {
                Ok(more) => Ok(metrics + more),
                Err(m) => Err(m),
            },
        },
    }
}

/// What collecting gives, given what came of reading the three files.
pub open spec fn psi_outcome(cfg: Config, cpu: FileView, io: FileView, memory: FileView) -> Result<
    Seq<MetricView<ValueView>>,
    Seq<char>,
> {
    let none: Result<Seq<MetricView<ValueView>>, Seq<char>> = Ok(seq![]);
    let a = with_resource(none, "cpu"@, cfg.proc_path_of("/proc/pressure/cpu"@), cpu, false);
    let b = with_resource(a, "io"@, cfg.proc_path_of("/proc/pressure/io"@), io, true);
    let c = with_resource(b, "memory"@, cfg.proc_path_of("/proc/pressure/memory"@), memory, true);
    if cpu is NotFound && io is NotFound && memory is NotFound {
        Err("pressure: no /proc/pressure/* files present (kernel < 4.20 or CONFIG_PSI=n)"@)
    } else {
        c
    }
}

/// Adds the families of one resource.
fn add_resource(
    out: &mut Vec<Metric<Value>>,
    resource: &str,
    path: &str,
    read: &FileRead,
    expect_full: bool,
) -> (r: Result<(), Error>)
    ensures
        match r {
            Ok(_) => with_resource(
                Ok(metric::metric_views(old(out)@)),
                resource@,
                path@,
                read@,
                expect_full,
            ) == Ok::<_, Seq<char>>(metric::metric_views(final(out)@)),
            Err(e) => with_resource(
                Ok(metric::metric_views(old(out)@)),
                resource@,
                path@,
                read@,
                expect_full,
            ) == Err::<Seq<MetricView<ValueView>>, _>(e@),
        },
{
    let raw = match read {
        FileRead::Contents(raw) => raw,
        FileRead::NotFound => {
            return Ok(());
        },
        FileRead::Failed => {
            return Err(unreadable_error(path));
        },
    };
    let ghost before = metric::metric_views(out@);
    match parse(raw.as_str()) {
        Ok((some, full)) => {
            let first = waiting_metric(resource, some);
            if !expect_full {
                out.push(first);
                assert(metric::metric_views(out@) =~= before + seq![first@]);
                return Ok(());
            }
            match full {
                Some(full) => {
                    let second = stalled_metric(resource, full);
                    out.push(first);
                    out.push(second);
                    assert(metric::metric_views(out@) =~= before + seq![first@, second@]);
                    Ok(())
                },
                None => {
                    let mut m = "pressure: ".to_owned();
                    m.push_str(path);
                    m.push_str(" missing required 'full' line");
                    Err(Error::new(m))
                },
            }
        },
        Err(e) => {
            let mut m = "parsing ".to_owned();
            m.push_str(path);
            m.push_str(": ");
            m.push_str(e.message.as_str());
            Err(Error::new(m))
        },
    }
}

pub struct PressureCollector;

impl PressureCollector {
    pub fn name(&self) -> (r: &'static str)
        ensures
            r@ == "pressure"@,
    {
        "pressure"
    }

    pub fn cpu_path(&self, cfg: &Config) -> (r: String)
        ensures
            r@ == cfg.proc_path_of("/proc/pressure/cpu"@),
    {
        cfg.proc_path("/proc/pressure/cpu")
    }

    pub fn io_path(&self, cfg: &Config) -> (r: String)
        ensures
            r@ == cfg.proc_path_of("/proc/pressure/io"@),
    {
        cfg.proc_path("/proc/pressure/io")
    }

    pub fn memory_path(&self, cfg: &Config) -> (r: String)
        ensures
            r@ == cfg.proc_path_of("/proc/pressure/memory"@),
    {
        cfg.proc_path("/proc/pressure/memory")
    }

    /// The metrics, given what came of reading the three files.
    pub fn collect(&self, cfg: &Config, cpu: &FileRead, io: &FileRead, memory: &FileRead) -> (r:
        Result<Vec<Metric<Value>>, Error>)
        ensures
            metric::outcome(r) == psi_outcome(*cfg, cpu@, io@, memory@),
    {
        let mut out: Vec<Metric<Value>> = Vec::new();
        assert(metric::metric_views(out@) =~= seq![]);
        match (cpu, io, memory) {
            (FileRead::NotFound, FileRead::NotFound, FileRead::NotFound) => {
                return Err(
                    Error::new(
                        "pressure: no /proc/pressure/* files present (kernel < 4.20 or CONFIG_PSI=n)".to_owned(),
                    ),
                );
            },
            _ => {},
        }
        match add_resource(&mut out, "cpu", self.cpu_path(cfg).as_str(), cpu, false) {
            Ok(_) => {},
            Err(e) => {
                return Err(e);
            },
        }
        match add_resource(&mut out, "io", self.io_path(cfg).as_str(), io, true) {
            Ok(_) => {},
            Err(e) => {
                return Err(e);
            },
        }
        match add_resource(&mut out, "memory", self.memory_path(cfg).as_str(), memory, true) {
            Ok(_) => {},
            Err(e) => {
                return Err(e);
            },
        }
        Ok(out)
    }
}

/// A resource whose file is missing is skipped: the others are as they would
/// be without it.
pub proof fn missing_resources_are_skipped(
    before: Result<Seq<MetricView<ValueView>>, Seq<char>>,
    resource: Seq<char>,
    path: Seq<char>,
    expect_full: bool,
)
    ensures
        with_resource(before, resource, path, FileView::NotFound, expect_full) == before,
{
}

/// A line is `some` or `full` and then fields; its total is the number behind
/// the first `total=`, wherever that stands.
pub proof fn every_line_tells_its_total(
    line: Seq<char>,
    full: bool,
    before: Seq<Seq<char>>,
    digits: Seq<char>,
    more: Seq<Seq<char>>,
)
    requires
        text::words(text::trim(line)) == seq![
            if full {
                "full"@
            } else {
                "some"@
            },
        ] + before + seq!["total="@ + digits] + more,
        forall|i: int|
            0 <= i < before.len() ==> !text::starts(#[trigger] before[i], "total="@),
        number::u64_value(digits) is Some,
    ensures
        psi_row(line) == Row::Keep((full, number::u64_value(digits)->0)),
{
    reveal_strlit("some");
    reveal_strlit("full");
    reveal_strlit("total=");
    let t = text::trim(line);
    let words = text::words(t);
    let kind = if full {
        "full"@
    } else {
        "some"@
    };
    let fields = before + seq!["total="@ + digits] + more;
    assert(words[0] == kind);
    assert("some"@[0] == 's' && "full"@[0] == 'f');
    assert(words.skip(1) =~= fields);
    if t.len() == 0 {
        text::words_are_cut_at_blanks(seq!['x'], ' ', t);
        assert(t =~= seq![]);
    }
    lemma_total(before, digits, more, kind);
}

proof fn lemma_total(
    before: Seq<Seq<char>>,
    digits: Seq<char>,
    more: Seq<Seq<char>>,
    kind: Seq<char>,
)
    requires
        forall|i: int|
            0 <= i < before.len() ==> !text::starts(#[trigger] before[i], "total="@),
        number::u64_value(digits) is Some,
    ensures
        total_of(before + seq!["total="@ + digits] + more, kind) == Ok::<_, Seq<char>>(
            number::u64_value(digits)->0,
        ),
    decreases before.len(),
{
    let field = "total="@ + digits;
    let fields = before + seq![field] + more;
    if before.len() == 0 {
        assert(fields[0] == field);
        let n = "total="@.len() as int;
        assert(field.take(n) =~= "total="@);
        assert(field.skip(n) =~= digits);
    } else {
        let rest = before.skip(1);
        assert(fields[0] == before[0]);
        assert forall|i: int| 0 <= i < rest.len() implies !text::starts(
            #[trigger] rest[i],
            "total="@,
        ) by {
            assert(rest[i] == before[i + 1]);
        }
        lemma_total(rest, digits, more, kind);
        assert(fields.skip(1) =~= rest + seq![field] + more);
    }
}

proof fn lemma_last_total(rows: Seq<(bool, u64)>, full: bool) -> (i: int)
    ensures
        -1 <= i < rows.len(),
        i >= 0 ==> rows[i].0 == full && last_total(rows, full) == Some(rows[i].1),
        i == -1 ==> last_total(rows, full) is None,
        forall|j: int| i < j < rows.len() ==> (#[trigger] rows[j]).0 != full,
    decreases rows.len(),
{
    if rows.len() == 0 {
        -1
    } else if rows.last().0 == full {
        rows.len() - 1
    } else {
        let front = rows.drop_last();
        let i = lemma_last_total(front, full);
        assert forall|j: int| i < j < rows.len() implies (#[trigger] rows[j]).0 != full by {
            if j < front.len() {
                assert(front[j] == rows[j]);
            }
        }
        i
    }
}

/// Of the lines of a kind the last counts. Where the file parses there is a
/// `some` line; whether there is a `full` line is told. The result is the
/// position of the line that counts, or -1.
pub proof fn the_last_line_of_a_kind_counts(raw: Seq<char>, full: bool) -> (m: int)
    requires
        psi_totals(raw) is Ok,
    ensures
        ({
            let lines = text::lines(raw);
            let total = if full {
                (psi_totals(raw)->Ok_0).1
            } else {
                Some((psi_totals(raw)->Ok_0).0)
            };
            &&& -1 <= m < lines.len()
            &&& m == -1 <==> total is None
            &&& m >= 0 ==> psi_row(lines[m]) == Row::Keep((full, total->0))
            &&& forall|k: int|
                #![trigger lines[k]]
                m < k < lines.len() ==> psi_row(lines[k]) is Skip || (psi_row(
                    lines[k],
                )->Keep_0).0 != full
        }),
{
    let lines = text::lines(raw);
    let row = psi_row_at();
    let kept = rows::rows(lines, row)->Ok_0;
    let at = rows::rows_come_of_their_lines(lines, row);
    rows::the_first_fault_fails_the_file(lines, row);
    let i = lemma_last_total(kept, full);
    let m = if i >= 0 {
        at[i]
    } else {
        -1
    };
    if i >= 0 {
        assert(row(at[i], lines[at[i]]) == Row::Keep(kept[i]));
        assert(kept[i] == (full, kept[i].1));
    }
    assert forall|k: int| #![trigger lines[k]] m < k < lines.len() implies psi_row(lines[k]) is Skip
        || (psi_row(lines[k])->Keep_0).0 != full by {
        assert(!(row(k, lines[k]) is Fail));
        if !(psi_row(lines[k]) is Skip) {
            assert(row(k, lines[k]) == psi_row(lines[k]));
            assert(at.contains(k));
            let b = choose|b: int| 0 <= b < at.len() && at[b] == k;
            assert(row(at[b], lines[at[b]]) == Row::Keep(kept[b]));
            if b <= i && i >= 0 {
                if b < i {
                    assert(at[b] < at[i]);
                }
            }
            assert(kept[b].0 != full);
        }
    }
    m
}

/// Whether the total of a resource is exported in seconds, of which its
/// microseconds are millionths, in a counter of that name without labels.
pub open spec fn tells_seconds(m: MetricView<ValueView>, name: Seq<char>, total_us: u64) -> bool {
    &&& m.name == name
    &&& m.mtype == MetricType::Counter
    &&& m.samples.len() == 1
    &&& m.samples[0].labels.len() == 0
    &&& quantity::stands_for(m.samples[0].value, total_us as int, 1_000_000)
}

/// The resources whose files are there are exported one after the other, each
/// with its own totals: of the CPU the waiting time, of the others the stalled
/// time too. Without any file collecting fails.
pub proof fn every_resource_is_exported(
    cfg: Config,
    cpu: FileView,
    io: FileView,
    memory: FileView,
)
    requires
        cpu is NotFound || cpu is Contents && psi_totals(cpu->Contents_0) is Ok,
        io is NotFound || io is Contents && psi_totals(io->Contents_0) is Ok && (psi_totals(
            io->Contents_0,
        )->Ok_0).1 is Some,
        memory is NotFound || memory is Contents && psi_totals(memory->Contents_0) is Ok && (
        psi_totals(memory->Contents_0)->Ok_0).1 is Some,
    ensures
        ({
            let outcome = psi_outcome(cfg, cpu, io, memory);
            let families = outcome->Ok_0;
            let a: int = if cpu is Contents {
                1
            } else {
                0
            };
            let b: int = if io is Contents {
                2
            } else {
                0
            };
            let c: int = if memory is Contents {
                2
            } else {
                0
            };
            &&& outcome is Ok <==> a + b + c > 0
            &&& outcome is Ok ==> {
                &&& families.len() == a + b + c
                &&& cpu is Contents ==> tells_seconds(
                    families[0],
                    "node_pressure_cpu_waiting_seconds_total"@,
                    (psi_totals(cpu->Contents_0)->Ok_0).0,
                )
                &&& io is Contents ==> tells_seconds(
                    families[a],
                    "node_pressure_io_waiting_seconds_total"@,
                    (psi_totals(io->Contents_0)->Ok_0).0,
                ) && tells_seconds(
                    families[a + 1],
                    "node_pressure_io_stalled_seconds_total"@,
                    (psi_totals(io->Contents_0)->Ok_0).1->0,
                )
                &&& memory is Contents ==> tells_seconds(
                    families[a + b],
                    "node_pressure_memory_waiting_seconds_total"@,
                    (psi_totals(memory->Contents_0)->Ok_0).0,
                ) && tells_seconds(
                    families[a + b + 1],
                    "node_pressure_memory_stalled_seconds_total"@,
                    (psi_totals(memory->Contents_0)->Ok_0).1->0,
                )
            }
        }),
{
    reveal_strlit("node_pressure_");
    reveal_strlit("cpu");
    reveal_strlit("io");
    reveal_strlit("memory");
    reveal_strlit("_waiting_seconds_total");
    reveal_strlit("_stalled_seconds_total");
    reveal_strlit("node_pressure_cpu_waiting_seconds_total");
    reveal_strlit("node_pressure_io_waiting_seconds_total");
    reveal_strlit("node_pressure_io_stalled_seconds_total");
    reveal_strlit("node_pressure_memory_waiting_seconds_total");
    reveal_strlit("node_pressure_memory_stalled_seconds_total");
    assert("node_pressure_"@ + "cpu"@ + "_waiting_seconds_total"@
        =~= "node_pressure_cpu_waiting_seconds_total"@);
    assert("node_pressure_"@ + "io"@ + "_waiting_seconds_total"@
        =~= "node_pressure_io_waiting_seconds_total"@);
    assert("node_pressure_"@ + "io"@ + "_stalled_seconds_total"@
        =~= "node_pressure_io_stalled_seconds_total"@);
    assert("node_pressure_"@ + "memory"@ + "_waiting_seconds_total"@
        =~= "node_pressure_memory_waiting_seconds_total"@);
    assert("node_pressure_"@ + "memory"@ + "_stalled_seconds_total"@
        =~= "node_pressure_memory_stalled_seconds_total"@);
}

/// A file that cannot be read, that does not parse, or that lacks the `full` line
/// it needs fails the whole.
pub proof fn faulty_resources_are_errors(
    cfg: Config,
    cpu: FileView,
    io: FileView,
    memory: FileView,
)
    requires
        cpu is Failed || io is Failed || memory is Failed || cpu is Contents && psi_totals(
            cpu->Contents_0,
        ) is Err || io is Contents && (psi_totals(io->Contents_0) is Err || (psi_totals(
            io->Contents_0,
        )->Ok_0).1 is None) || memory is Contents && (psi_totals(memory->Contents_0) is Err || (
        psi_totals(memory->Contents_0)->Ok_0).1 is None),
    ensures
        psi_outcome(cfg, cpu, io, memory) is Err,
{
}

/// A line of another kind and a line without a total that is a number fail the
/// file; a blank line does not.
pub proof fn faulty_lines_are_errors(line: Seq<char>)
    ensures
        ({
            let words = text::words(text::trim(line));
            &&& text::trim(line).len() == 0 ==> psi_row(line) is Skip
            &&& words.len() > 0 && words[0] != "some"@ && words[0] != "full"@ ==> psi_row(line)
                is Fail
            &&& words.len() > 0 && (forall|j: int|
                1 <= j < words.len() ==> !text::starts(#[trigger] words[j], "total="@)) ==> psi_row(
                line,
            ) is Fail
        }),
{
    let t = text::trim(line);
    let words = text::words(t);
    if words.len() > 0 {
        if t.len() == 0 {
            text::words_are_cut_at_blanks(seq!['x'], ' ', t);
            assert(t =~= seq![]);
        }
        if forall|j: int| 1 <= j < words.len() ==> !text::starts(#[trigger] words[j], "total="@) {
            let fields = words.skip(1);
            assert forall|j: int| 0 <= j < fields.len() implies !text::starts(
                #[trigger] fields[j],
                "total="@,
            ) by {
                assert(fields[j] == words[j + 1]);
            }
            lemma_no_total(fields, words[0]);
        }
    }
}

proof fn lemma_no_total(fields: Seq<Seq<char>>, kind: Seq<char>)
    requires
        forall|j: int| 0 <= j < fields.len() ==> !text::starts(#[trigger] fields[j], "total="@),
    ensures
        total_of(fields, kind) is Err,
    decreases fields.len(),
{
    if fields.len() > 0 {
        assert(!text::starts(fields[0], "total="@));
        let rest = fields.skip(1);
        assert forall|j: int| 0 <= j < rest.len() implies !text::starts(
            #[trigger] rest[j],
            "total="@,
        ) by {
            assert(rest[j] == fields[j + 1]);
        }
        lemma_no_total(rest, kind);
    }
}

} // verus!
