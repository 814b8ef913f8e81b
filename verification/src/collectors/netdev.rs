//! `/proc/net/dev`: per-interface network counters.
//!
//! Emits sixteen counter families:
//!
//! - Receive side: `node_network_receive_{bytes,packets,errs,drop,fifo,
//!   frame,compressed,multicast}_total`.
//! - Transmit side: `node_network_transmit_{bytes,packets,errs,drop,fifo,
//!   colls,carrier,compressed}_total`.
//!
//! Each sample carries a single `device="<ifname>"` label.

use vstd::prelude::*;
use vstd::slice::slice_subrange;

use crate::config::Config;
use crate::error::Error;
use crate::metric;
use crate::metric::{Metric, MetricType, MetricView, Sample, SampleView, Value, ValueView};
use crate::number;
use crate::number::{parse_u64_fields, push_decimal};
use crate::order;
use crate::quantity;
use crate::rows;
use crate::rows::Row;
use crate::source;
use crate::source::{unreadable_error, FileRead, FileView};
use crate::text;
use crate::text::{
    chars_of, find_last_char, lines_of, push_chars, string_of, trimmed, words_of,
};

verus! {

/// The number of counters of an interface.
pub const FIELDS: usize = 16;

/// The number of lines before the first interface.
pub const HEADER_LINES: usize = 2;

/// The counters, in the order in which the kernel writes them: eight of what
/// was received, then eight of what was transmitted.
pub open spec fn field_names() -> Seq<Seq<char>> {
    seq![
        "receive_bytes"@,
        "receive_packets"@,
        "receive_errs"@,
        "receive_drop"@,
        "receive_fifo"@,
        "receive_frame"@,
        "receive_compressed"@,
        "receive_multicast"@,
        "transmit_bytes"@,
        "transmit_packets"@,
        "transmit_errs"@,
        "transmit_drop"@,
        "transmit_fifo"@,
        "transmit_colls"@,
        "transmit_carrier"@,
        "transmit_compressed"@,
    ]
}

fn field_name(i: usize) -> (r: &'static str)
    requires
        i < FIELDS,
    ensures
        r@ == field_names()[i as int],
{
    match i {
        0 => "receive_bytes",
        1 => "receive_packets",
        2 => "receive_errs",
        3 => "receive_drop",
        4 => "receive_fifo",
        5 => "receive_frame",
        6 => "receive_compressed",
        7 => "receive_multicast",
        8 => "transmit_bytes",
        9 => "transmit_packets",
        10 => "transmit_errs",
        11 => "transmit_drop",
        12 => "transmit_fifo",
        13 => "transmit_colls",
        14 => "transmit_carrier",
        _ => "transmit_compressed",
    }
}

/// The counters of one interface.
pub struct NetRow {
    pub device: String,
    pub counters: Vec<u64>,
}

/// What a [`NetRow`] says.
pub struct NetRowView {
    pub device: Seq<char>,
    pub counters: Seq<u64>,
}

impl View for NetRow {
    type V = NetRowView;

    open spec fn view(&self) -> NetRowView {
        NetRowView { device: self.device@, counters: self.counters@ }
    }
}

/// What line `i` comes to, given the name of its interface and the words that
/// follow the colon. Words past the last counter are not read.
pub open spec fn counters_row(i: int, device: Seq<char>, words: Seq<Seq<char>>) -> Row<NetRowView> {
    let fields = if words.len() > FIELDS {
        words.take(FIELDS as int)
    } else {
        words
    };
    let good = number::u64_run(fields);
    let key = field_names()[good];
    if good < fields.len() {
        Row::Fail("netdev: "@ + device + ": parsing "@ + key)
    } else if fields.len() < FIELDS {
        Row::Fail(
            "netdev: "@ + device + ": missing field "@ + number::decimal(good as nat) + " ("@ + key
                + ") on line "@ + number::decimal((i + 1) as nat),
        )
    } else {
        Row::Keep(NetRowView { device, counters: number::u64_values(fields) })
    }
}

/// What line `i` comes to. The name of an interface may hold a colon itself
/// (`eth0:0`), so the last colon is the one that ends it.
pub open spec fn netdev_row(i: int, line: Seq<char>) -> Row<NetRowView> {
    let after = text::after_last_index(line, ':');
    let device = text::trim(line.take(after - 1));
    let at_line = "netdev: line "@ + number::decimal((i + 1) as nat);
    if i < HEADER_LINES || text::trim(line).len() == 0 {
        Row::Skip
    } else if after == 0 {
        Row::Fail(at_line + " missing ':'"@)
    } else if device.len() == 0 {
        Row::Fail(at_line + " has empty interface name"@)
    } else {
        counters_row(i, device, text::words(line.skip(after)))
    }
}

pub open spec fn netdev_row_at() -> spec_fn(int, Seq<char>) -> Row<NetRowView> {
    |i: int, line: Seq<char>| netdev_row(i, line)
}

/// The family of counter `k`: one sample for each interface.
pub open spec fn netdev_family(rows: Seq<NetRowView>, k: int) -> MetricView<ValueView> {
    MetricView::new(
        "node_network_"@ + field_names()[k] + "_total"@,
        "Network device statistic "@ + field_names()[k] + "."@,
        MetricType::Counter,
    ).with_samples(
        Seq::new(
            rows.len(),
            |i: int|
                SampleView::new(ValueView::unsigned(rows[i].counters[k])).with_label(
                    "device"@,
                    rows[i].device,
                ),
        ),
    )
}

/// What `/proc/net/dev` comes to.
pub open spec fn netdev_outcome(raw: Seq<char>) -> Result<Seq<MetricView<ValueView>>, Seq<char>> {
    match rows::rows(text::lines(raw), netdev_row_at()) {
        Ok(rows) => if rows.len() == 0 {
            Err("netdev: no interfaces parsed from /proc/net/dev"@)
        } else {
            Ok(Seq::new(FIELDS as nat, |k: int| netdev_family(rows, k)))
        },
        Err(m) => Err(m),
    }
}

fn parse_counters(i: usize, device: &[char], words: &[&[char]]) -> (r: Result<NetRow, Error>)
    requires
        i < usize::MAX,
    ensures
        match r {
            Ok(row) => counters_row(i as int, device@, text::views(words@)) == Row::Keep(row@)
                && row.counters@.len() == FIELDS,
            Err(e) => counters_row(i as int, device@, text::views(words@)) == Row::<
                NetRowView,
            >::Fail(e@),
        },
{
    let fields = if words.len() > FIELDS {
        slice_subrange(words, 0, FIELDS)
    } else {
        words
    };
    proof {
        if words@.len() > FIELDS {
            assert(text::views(fields@) =~= text::views(words@).take(FIELDS as int));
        }
        assert(text::views(fields@).len() == fields@.len());
    }
    match parse_u64_fields(fields) {
        Ok(counters) => {
            if fields.len() < FIELDS {
                let mut m = "netdev: ".to_owned();
                push_chars(&mut m, device);
                m.push_str(": missing field ");
                push_decimal(&mut m, fields.len() as u64);
                m.push_str(" (");
                m.push_str(field_name(fields.len()));
                m.push_str(") on line ");
                push_decimal(&mut m, i as u64 + 1);
                return Err(Error::new(m));
            }
            Ok(NetRow { device: string_of(device), counters })
        },
        Err(k) => {
            let mut m = "netdev: ".to_owned();
            push_chars(&mut m, device);
            m.push_str(": parsing ");
            m.push_str(field_name(k));
            Err(Error::new(m))
        },
    }
}

fn at_line(i: usize, what: &str) -> (r: Error)
    requires
        i < usize::MAX,
    ensures
        r@ == "netdev: line "@ + number::decimal((i + 1) as nat) + what@,
{
    let mut m = "netdev: line ".to_owned();
    push_decimal(&mut m, i as u64 + 1);
    m.push_str(what);
    Error::new(m)
}

fn parse_row(i: usize, line: &[char]) -> (r: Result<Option<NetRow>, Error>)
    requires
        i < usize::MAX,
    ensures
        match r {
            Ok(None) => netdev_row(i as int, line@) == Row::<NetRowView>::Skip,
            Ok(Some(row)) => netdev_row(i as int, line@) == Row::Keep(row@) && row.counters@.len()
                == FIELDS,
            Err(e) => netdev_row(i as int, line@) == Row::<NetRowView>::Fail(e@),
        },
{
    if i < HEADER_LINES || trimmed(line).len() == 0 {
        return Ok(None);
    }
    let after = find_last_char(line, ':');
    if after == 0 {
        return Err(at_line(i, " missing ':'"));
    }
    let device = trimmed(slice_subrange(line, 0, after - 1));
    if device.len() == 0 {
        return Err(at_line(i, " has empty interface name"));
    }
    let words = words_of(slice_subrange(line, after, line.len()));
    match parse_counters(i, device, words.as_slice()) {
        Ok(row) => Ok(Some(row)),
        Err(e) => Err(e),
    }
}

fn family(rows: &Vec<NetRow>, k: usize) -> (r: Metric<Value>)
    requires
        k < FIELDS,
        forall|i: int| 0 <= i < rows@.len() ==> (#[trigger] rows@[i]).counters@.len() == FIELDS,
    ensures
        r@ == netdev_family(order::views(rows@), k as int),
{
    let ghost all = order::views(rows@);
    let ghost whole = netdev_family(all, k as int);
    let mut name = "node_network_".to_owned();
    name.push_str(field_name(k));
    name.push_str("_total");
    let mut help = "Network device statistic ".to_owned();
    help.push_str(field_name(k));
    help.push_str(".");
    let mut m = Metric::new(name.as_str(), help.as_str(), MetricType::Counter);
    let mut i: usize = 0;
    assert(whole.samples.take(0) =~= seq![]);
    while i < rows.len()
        invariant
            i <= rows@.len(),
            k < FIELDS,
            forall|i: int|
                0 <= i < rows@.len() ==> (#[trigger] rows@[i]).counters@.len() == FIELDS,
            all == order::views(rows@),
            whole == netdev_family(all, k as int),
            m@ == whole.with_samples(whole.samples.take(i as int)),
        decreases rows@.len() - i,
    {
        assert(all[i as int] == rows@[i as int]@);
        let s = Sample::new(Value::unsigned(rows[i].counters[k])).with_label(
            "device",
            rows[i].device.as_str(),
        );
        m.push(s);
        assert(whole.samples.take(i + 1) =~= whole.samples.take(i as int).push(s@));
        i = i + 1;
    }
    assert(whole.samples.take(i as int) =~= whole.samples);
    m
}

/// Parses `/proc/net/dev`.
pub fn parse(raw: &str) -> (r: Result<Vec<Metric<Value>>, Error>)
    ensures
        metric::outcome(r) == netdev_outcome(raw@),
{
    let chars = chars_of(raw);
    let lines = lines_of(chars.as_slice());
    let ghost all = text::lines(raw@);
    let mut rows: Vec<NetRow> = Vec::new();
    let mut i: usize = 0;
    assert(order::views(rows@) =~= seq![]);
    while i < lines.len()
        invariant
            all == text::lines(raw@),
            text::views(lines@) == all,
            i <= lines@.len(),
            rows::rows(all.take(i as int), netdev_row_at()) == Ok::<_, Seq<char>>(
                order::views(rows@),
            ),
            forall|j: int|
                0 <= j < rows@.len() ==> (#[trigger] rows@[j]).counters@.len() == FIELDS,
        decreases lines@.len() - i,
    {
        proof {
            assert(all[i as int] == lines@[i as int]@);
            rows::lemma_next_row(all, netdev_row_at(), i as int);
        }
        let ghost before = order::views(rows@);
        match parse_row(i, lines[i]) {
            Ok(Some(row)) => {
                rows.push(row);
                assert(order::views(rows@) =~= before.push(row@));
            },
            Ok(None) => {},
            Err(e) => {
                proof {
                    rows::lemma_failed_row(all, netdev_row_at(), i + 1);
                }
                return Err(e);
            },
        }
        i = i + 1;
    }
    assert(all.take(all.len() as int) =~= all);
    let ghost kept = order::views(rows@);
    if rows.len() == 0 {
        return Err(Error::new("netdev: no interfaces parsed from /proc/net/dev".to_owned()));
    }
    let mut out: Vec<Metric<Value>> = Vec::new();
    let mut k: usize = 0;
    while k < FIELDS
        invariant
            k <= FIELDS,
            kept == order::views(rows@),
            forall|j: int|
                0 <= j < rows@.len() ==> (#[trigger] rows@[j]).counters@.len() == FIELDS,
            metric::metric_views(out@) =~= Seq::new(k as nat, |j: int| netdev_family(kept, j)),
        decreases FIELDS - k,
    {
        let m = family(&rows, k);
        let ghost had = metric::metric_views(out@);
        out.push(m);
        assert(metric::metric_views(out@) =~= had.push(m@));
        k = k + 1;
    }
    Ok(out)
}

pub struct NetdevCollector;

impl NetdevCollector {
    pub fn name(&self) -> (r: &'static str)
        ensures
            r@ == "netdev"@,
    {
        "netdev"
    }

    /// The file that the collector reads.
    pub fn path(&self, cfg: &Config) -> (r: String)
        ensures
            r@ == cfg.proc_path_of("/proc/net/dev"@),
    {
        cfg.proc_path("/proc/net/dev")
    }

    /// The metrics, given what came of reading the file.
    pub fn collect(&self, cfg: &Config, read: &FileRead) -> (r: Result<Vec<Metric<Value>>, Error>)
        ensures
            metric::outcome(r) == match read@ {
                FileView::Contents(raw) => netdev_outcome(raw),
                _ => Err(source::unreadable(cfg.proc_path_of("/proc/net/dev"@))),
            },
    {
        match read {
            FileRead::Contents(raw) => parse(raw.as_str()),
            _ => Err(unreadable_error(self.path(cfg).as_str())),
        }
    }
}

/// Where the file can be parsed there are sixteen families, and each has one
/// sample for each interface.
pub proof fn every_interface_is_in_every_family(raw: Seq<char>, k: int)
    requires
        netdev_outcome(raw) is Ok,
        0 <= k < FIELDS,
    ensures
        netdev_outcome(raw)->Ok_0.len() == FIELDS,
        netdev_outcome(raw)->Ok_0[k].samples.len() == rows::rows(
            text::lines(raw),
            netdev_row_at(),
        )->Ok_0.len(),
{
}

/// The line of an interface is its name, a colon and sixteen numbers or more.
/// Blanks round the name do not matter, and the name may hold colons itself.
/// Every such line past the header is kept, with that name and the first sixteen
/// numbers.
pub proof fn every_interface_has_its_row(
    i: int,
    a: Seq<char>,
    device: Seq<char>,
    b: Seq<char>,
    rest: Seq<char>,
)
    requires
        i >= 2,
        forall|j: int| 0 <= j < a.len() ==> text::is_space(#[trigger] a[j]),
        forall|j: int| 0 <= j < b.len() ==> text::is_space(#[trigger] b[j]),
        device.len() > 0 && !text::is_space(device[0]) && !text::is_space(device.last()),
        !rest.contains(':'),
        text::words(rest).len() >= 16,
        forall|j: int|
            0 <= j < 16 ==> number::u64_value(#[trigger] text::words(rest)[j]) is Some,
    ensures
        ({
            let row = netdev_row(i, a + device + b + seq![':'] + rest);
            &&& row is Keep
            &&& row->Keep_0.device == device
            &&& row->Keep_0.counters.len() == 16
            &&& forall|j: int|
                0 <= j < 16 ==> Some(#[trigger] row->Keep_0.counters[j]) == number::u64_value(
                    text::words(rest)[j],
                )
        }),
{
    let head = a + device + b;
    let line = head + seq![':'] + rest;
    text::characters_are_found(head, ':', rest);
    text::ends_are_trimmed(a, device, b);
    let n = head.len() as int;
    assert(line.take(n) =~= head);
    assert(line.skip(n + 1) =~= rest);
    assert(text::trim(line).len() > 0) by {
        lemma_solid(line, a.len() as int);
    }
    let words = text::words(rest);
    let fields = if words.len() > FIELDS {
        words.take(FIELDS as int)
    } else {
        words
    };
    assert forall|j: int| 0 <= j < fields.len() implies number::u64_value(
        #[trigger] fields[j],
    ) is Some by {
        assert(fields[j] == words[j]);
    }
    number::lemma_u64_run(fields, 16);
}

/// Text with a character other than white space is not trimmed away.
proof fn lemma_solid(s: Seq<char>, k: int)
    requires
        0 <= k < s.len(),
        !text::is_space(s[k]),
    ensures
        text::trim(s).len() > 0,
{
    let n = text::run(s, text::blank());
    text::lemma_run_meaning(s, text::blank());
    assert(n <= k) by {
        if n > k {
            assert(text::blank()(s[k]));
        }
    }
    let t = s.skip(n);
    assert(t[k - n] == s[k]);
    lemma_solid_end(t, k - n);
}

proof fn lemma_solid_end(s: Seq<char>, k: int)
    requires
        0 <= k < s.len(),
        !text::is_space(s[k]),
    ensures
        text::trim_end(s).len() > 0,
    decreases s.len(),
{
    if text::is_space(s.last()) {
        assert(s.drop_last()[k] == s[k]);
        lemma_solid_end(s.drop_last(), k);
    }
}

/// Where `/proc/net/dev` parses, each interface has a sample in every family, in
/// the order of the lines, with its own name and with the number that its own
/// line has for the family. The result is the positions of those lines: all lines
/// past the header that are not blank.
pub proof fn every_interface_is_exported(raw: Seq<char>, k: int) -> (at: Seq<int>)
    requires
        netdev_outcome(raw) is Ok,
        0 <= k < 16,
    ensures
        ({
            let lines = text::lines(raw);
            let families = netdev_outcome(raw)->Ok_0;
            &&& forall|m: int|
                #![trigger lines[m]]
                0 <= m < lines.len() ==> (at.contains(m) <==> m >= 2 && text::trim(
                    lines[m],
                ).len() > 0)
            &&& forall|i: int, j: int| 0 <= i < j < at.len() ==> #[trigger] at[i] < #[trigger] at[j]
            &&& families.len() == 16
            &&& families[k].samples.len() == at.len()
            &&& forall|i: int|
                #![trigger families[k].samples[i]]
                0 <= i < at.len() ==> {
                    let line = lines[at[i]];
                    let after = text::after_last_index(line, ':');
                    let words = text::words(line.skip(after));
                    &&& 0 <= at[i] < lines.len()
                    &&& families[k].samples[i].labels == seq![
                        ("device"@, text::trim(line.take(after - 1))),
                    ]
                    &&& words.len() >= 16
                    &&& number::u64_value(words[k]) is Some
                    &&& quantity::stands_for(
                        families[k].samples[i].value,
                        number::u64_value(words[k])->0 as int,
                        1,
                    )
                }
        }),
{
    let lines = text::lines(raw);
    let row = netdev_row_at();
    let kept = rows::rows(lines, row)->Ok_0;
    let families = netdev_outcome(raw)->Ok_0;
    let at = rows::rows_come_of_their_lines(lines, row);
    rows::the_first_fault_fails_the_file(lines, row);
    assert forall|m: int| #![trigger lines[m]] 0 <= m < lines.len() implies (at.contains(m) <==> m
        >= 2 && text::trim(lines[m]).len() > 0) by {
        assert(!(row(m, lines[m]) is Fail));
    }
    assert forall|i: int| #![trigger families[k].samples[i]] 0 <= i < at.len() implies {
        let line = lines[at[i]];
        let after = text::after_last_index(line, ':');
        let words = text::words(line.skip(after));
        &&& 0 <= at[i] < lines.len()
        &&& families[k].samples[i].labels == seq![("device"@, text::trim(line.take(after - 1)))]
        &&& words.len() >= 16
        &&& number::u64_value(words[k]) is Some
        &&& quantity::stands_for(
            families[k].samples[i].value,
            number::u64_value(words[k])->0 as int,
            1,
        )
    } by {
        let line = lines[at[i]];
        assert(row(at[i], line) == Row::Keep(kept[i]));
        let after = text::after_last_index(line, ':');
        let words = text::words(line.skip(after));
        let fields = if words.len() > FIELDS {
            words.take(FIELDS as int)
        } else {
            words
        };
        number::lemma_u64_run_meaning(fields);
        assert(fields[k] == words[k]);
        assert(number::u64_value(fields[k]) is Some);
        assert(families[k].samples[i].labels =~= seq![("device"@, kept[i].device)]);
    }
    at
}

/// The families come in the order of the numbers: eight of what was received and
/// eight of what was transmitted.
pub proof fn network_families_are_named(raw: Seq<char>, k: int)
    requires
        netdev_outcome(raw) is Ok,
        0 <= k < 16,
    ensures
        netdev_outcome(raw)->Ok_0[k].mtype == MetricType::Counter,
        netdev_outcome(raw)->Ok_0[k].name == "node_network_"@ + seq![
            "receive_bytes"@,
            "receive_packets"@,
            "receive_errs"@,
            "receive_drop"@,
            "receive_fifo"@,
            "receive_frame"@,
            "receive_compressed"@,
            "receive_multicast"@,
            "transmit_bytes"@,
            "transmit_packets"@,
            "transmit_errs"@,
            "transmit_drop"@,
            "transmit_fifo"@,
            "transmit_colls"@,
            "transmit_carrier"@,
            "transmit_compressed"@,
        ][k] + "_total"@,
{
}

/// `/proc/net/dev` parses where some line past the header is not blank, and each
/// such line has a name, a colon and sixteen numbers.
pub proof fn good_interfaces_do_not_fail(raw: Seq<char>)
    ensures
        netdev_outcome(raw) is Ok <==> {
            let lines = text::lines(raw);
            &&& exists|m: int|
                2 <= m < lines.len() && text::trim(#[trigger] lines[m]).len() > 0
            &&& forall|m: int|
                2 <= m < lines.len() && text::trim(#[trigger] lines[m]).len() > 0 ==> {
                    let after = text::after_last_index(lines[m], ':');
                    let words = text::words(lines[m].skip(after));
                    &&& after > 0
                    &&& text::trim(lines[m].take(after - 1)).len() > 0
                    &&& words.len() >= 16
                    &&& forall|j: int|
                        0 <= j < 16 ==> number::u64_value(#[trigger] words[j]) is Some
                }
        },
{
    let lines = text::lines(raw);
    let row = netdev_row_at();
    rows::the_first_fault_fails_the_file(lines, row);
    assert forall|m: int|
        2 <= m < lines.len() && text::trim(#[trigger] lines[m]).len() > 0 implies (row(
        m,
        lines[m],
    ) is Fail <==> !{
        let after = text::after_last_index(lines[m], ':');
        let words = text::words(lines[m].skip(after));
        &&& after > 0
        &&& text::trim(lines[m].take(after - 1)).len() > 0
        &&& words.len() >= 16
        &&& forall|j: int| 0 <= j < 16 ==> number::u64_value(#[trigger] words[j]) is Some
    }) by {
        let after = text::after_last_index(lines[m], ':');
        lemma_after_last(lines[m], ':');
        let words = text::words(lines[m].skip(after));
        let fields = if words.len() > FIELDS {
            words.take(FIELDS as int)
        } else {
            words
        };
        number::lemma_u64_run_meaning(fields);
        let good = number::u64_run(fields);
        assert(forall|j: int| 0 <= j < fields.len() ==> #[trigger] fields[j] == words[j]);
        if good < fields.len() {
            assert(number::u64_value(words[good]) is None);
        } else {
            assert forall|j: int| 0 <= j < 16 && j < words.len() implies number::u64_value(
                #[trigger] words[j],
            ) is Some by {
                assert(number::u64_value(fields[j]) is Some);
            }
        }
    }
    if rows::rows(lines, row) is Ok {
        let kept = rows::rows(lines, row)->Ok_0;
        let at = rows::rows_come_of_their_lines(lines, row);
        if kept.len() > 0 {
            assert(row(at[0], lines[at[0]]) == Row::Keep(kept[0]));
            assert(text::trim(lines[at[0]]).len() > 0);
        }
        if exists|m: int| 2 <= m < lines.len() && text::trim(#[trigger] lines[m]).len() > 0 {
            let m = choose|m: int| 2 <= m < lines.len() && text::trim(#[trigger] lines[m]).len() > 0;
            assert(!(row(m, lines[m]) is Skip));
            assert(at.contains(m));
        }
    }
}

proof fn lemma_after_last(s: Seq<char>, c: char)
    ensures
        0 <= text::after_last_index(s, c) <= s.len(),
    decreases s.len(),
{
    if s.len() > 0 && s.last() != c {
        lemma_after_last(s.drop_last(), c);
    }
}

/// A message about a line without a colon or without a name names the line,
/// counted from one.
pub proof fn faults_name_their_line(i: int, line: Seq<char>)
    requires
        i >= 2,
        text::trim(line).len() > 0,
        text::after_last_index(line, ':') == 0 || text::trim(
            line.take(text::after_last_index(line, ':') - 1),
        ).len() == 0,
    ensures
        netdev_row(i, line) is Fail,
        text::starts(
            netdev_row(i, line)->Fail_0,
            "netdev: line "@ + number::decimal((i + 1) as nat) + " "@,
        ),
{
    reveal_strlit(" ");
    reveal_strlit(" missing ':'");
    reveal_strlit(" has empty interface name");
    let head = "netdev: line "@ + number::decimal((i + 1) as nat);
    text::lemma_starts(head + " "@, " missing ':'"@.skip(1));
    text::lemma_starts(head + " "@, " has empty interface name"@.skip(1));
    assert(head + " missing ':'"@ =~= head + " "@ + " missing ':'"@.skip(1));
    assert(head + " has empty interface name"@ =~= head + " "@
        + " has empty interface name"@.skip(1));
}

} // verus!
