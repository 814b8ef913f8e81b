//! `/proc/net/{netstat,snmp,snmp6}`: per-protocol network counters.
//!
//! All fields are emitted as untyped, under metric names shaped like
//! `node_netstat_<Proto>_<Field>`:
//!
//! - `/proc/net/netstat` and `/proc/net/snmp` alternate between a header line
//!   and a value line, each prefixed with the protocol's name and a colon.
//! - `/proc/net/snmp6` has one `Field<whitespace>Value` per line; the field's
//!   name already embeds the protocol (`Ip6InReceives`), which ends at the
//!   first `6`.
//!
//! `/proc/net/snmp6` is absent on IPv6-disabled hosts; that's tolerated.

use vstd::prelude::*;
use vstd::slice::slice_subrange;

use crate::config::Config;
use crate::error::Error;
use crate::metric;
use crate::metric::{Metric, MetricType, MetricView, Value, ValueView};
use crate::number;
use crate::number::{float_literal, push_decimal};
use crate::quantity;
use crate::rows;
use crate::rows::Row;
use crate::source;
use crate::source::{unreadable_error, FileRead, FileView};
use crate::text;
use crate::text::{
    chars_of, find_char, lines_of, push_chars, push_quoted_chars, split_at_char, string_of,
    words_of,
};

verus! {

/// The family of a field, or the message for a value that is no number.
pub open spec fn field_metric(
    protocol: Seq<char>,
    field: Seq<char>,
    value: Seq<char>,
) -> Result<MetricView<ValueView>, Seq<char>> {
    if number::is_float(value) {
        Ok(
            MetricView::single(
                "node_netstat_"@ + protocol + "_"@ + field,
                "Statistic "@ + protocol + field + "."@,
                MetricType::Untyped,
                ValueView::decimal(value),
            ),
        )
    } else {
        Err("invalid value "@ + text::debug_form(value) + " for "@ + protocol + "_"@ + field)
    }
}

/// The families of the fields up to position `n`. The first position holds the
/// protocol and is no field.
pub open spec fn field_metrics(
    protocol: Seq<char>,
    header: Seq<Seq<char>>,
    values: Seq<Seq<char>>,
    n: int,
) -> Result<Seq<MetricView<ValueView>>, Seq<char>>
    decreases n,
{
    if n <= 1 {
        Ok(seq![])
    } else {
        match field_metrics(protocol, header, values, n - 1) {
            Ok(before) => match field_metric(protocol, header[n - 1], values[n - 1]) {
                Ok(m) => Ok(before.push(m)),
                Err(m) => Err(m),
            },
            Err(m) => Err(m),
        }
    }
}

/// The families of a header line and its value line.
pub open spec fn pair_metrics(header_line: Seq<char>, value_line: Seq<char>) -> Result<
    Seq<MetricView<ValueView>>,
    Seq<char>,
> {
    let header = text::split(header_line, ' ');
    let values = text::split(value_line, ' ');
    let protocol = header[0].drop_last();
    if !text::ends_with(header[0], ':') {
        Err("header token "@ + text::debug_form(header[0]) + " missing trailing ':'"@)
    } else if header.len() != values.len() {
        Err(
            "field count mismatch for protocol "@ + protocol + ": "@ + number::decimal(
                (header.len() - 1) as nat,
            ) + " headers vs "@ + number::decimal((values.len() - 1) as nat) + " values"@,
        )
    } else {
        field_metrics(protocol, header, values, header.len() as int)
    }
}

/// The families of pairs of lines. An empty line where a header is due is
/// skipped.
pub open spec fn netstat_lines(lines: Seq<Seq<char>>) -> Result<
    Seq<MetricView<ValueView>>,
    Seq<char>,
>
    decreases lines.len(),
{
    if lines.len() == 0 {
        Ok(seq![])
    } else if lines[0].len() == 0 {
        netstat_lines(lines.skip(1))
    } else if lines.len() == 1 {
        Err("header line "@ + text::debug_form(lines[0]) + " has no matching value line"@)
    } else {
        match pair_metrics(lines[0], lines[1]) {
            Ok(metrics) => after_metrics(metrics, netstat_lines(lines.skip(2))),
            Err(m) => Err(m),
        }
    }
}

/// `metrics` and what the rest comes to.
pub open spec fn after_metrics(
    metrics: Seq<MetricView<ValueView>>,
    rest: Result<Seq<MetricView<ValueView>>, Seq<char>>,
) -> Result<Seq<MetricView<ValueView>>, Seq<char>> {
    match rest {
        Ok(more) => Ok(metrics + more),
        Err(m) => Err(m),
    }
}

/// What `/proc/net/netstat` or `/proc/net/snmp` comes to.
pub open spec fn netstat_outcome(raw: Seq<char>) -> Result<Seq<MetricView<ValueView>>, Seq<char>> {
    netstat_lines(text::lines(raw))
}

fn parse_field(protocol: &[char], field: &[char], value: &[char]) -> (r: Result<
    Metric<Value>,
    Error,
>)
    ensures
        match r {
            Ok(m) => field_metric(protocol@, field@, value@) == Ok::<_, Seq<char>>(m@),
            Err(e) => field_metric(protocol@, field@, value@) == Err::<
                MetricView<ValueView>,
                _,
            >(e@),
        },
{
    if float_literal(value) {
        let mut name = "node_netstat_".to_owned();
        push_chars(&mut name, protocol);
        name.push_str("_");
        push_chars(&mut name, field);
        let mut help = "Statistic ".to_owned();
        push_chars(&mut help, protocol);
        push_chars(&mut help, field);
        help.push_str(".");
        Ok(
            Metric::single(
                name.as_str(),
                help.as_str(),
                MetricType::Untyped,
                Value::decimal(string_of(value)),
            ),
        )
    } else {
        let mut m = "invalid value ".to_owned();
        push_quoted_chars(&mut m, value);
        m.push_str(" for ");
        push_chars(&mut m, protocol);
        m.push_str("_");
        push_chars(&mut m, field);
        Err(Error::new(m))
    }
}

proof fn lemma_failed_field(
    protocol: Seq<char>,
    header: Seq<Seq<char>>,
    values: Seq<Seq<char>>,
    n: int,
    all: int,
)
    requires
        0 <= n <= all,
        field_metrics(protocol, header, values, n) is Err,
    ensures
        field_metrics(protocol, header, values, all) == field_metrics(protocol, header, values, n),
    decreases all,
{
    if n < all {
        lemma_failed_field(protocol, header, values, n, all - 1);
    }
}

fn parse_pair(header_line: &[char], value_line: &[char]) -> (r: Result<Vec<Metric<Value>>, Error>)
    ensures
        metric::outcome(r) == pair_metrics(header_line@, value_line@),
{
    let header = split_at_char(header_line, ' ');
    let values = split_at_char(value_line, ' ');
    let ghost hs = text::split(header_line@, ' ');
    let ghost vs = text::split(value_line@, ' ');
    let token = header[0];
    proof {
        assert(text::views(header@).len() == header@.len());
        assert(text::views(values@).len() == values@.len());
        assert(hs[0] == token@);
    }
    if token.len() == 0 || token[token.len() - 1] != ':' {
        let mut m = "header token ".to_owned();
        push_quoted_chars(&mut m, token);
        m.push_str(" missing trailing ':'");
        return Err(Error::new(m));
    }
    let protocol = slice_subrange(token, 0, token.len() - 1);
    assert(protocol@ =~= hs[0].drop_last());
    if header.len() != values.len() {
        let mut m = "field count mismatch for protocol ".to_owned();
        push_chars(&mut m, protocol);
        m.push_str(": ");
        push_decimal(&mut m, header.len() as u64 - 1);
        m.push_str(" headers vs ");
        push_decimal(&mut m, values.len() as u64 - 1);
        m.push_str(" values");
        return Err(Error::new(m));
    }
    let mut out: Vec<Metric<Value>> = Vec::new();
    let mut i: usize = 1;
    assert(metric::metric_views(out@) =~= seq![]);
    while i < header.len()
        invariant
            1 <= i <= header@.len(),
            header@.len() == values@.len(),
            hs == text::split(header_line@, ' '),
            vs == text::split(value_line@, ' '),
            text::views(header@) == hs,
            text::views(values@) == vs,
            text::ends_with(hs[0], ':'),
            protocol@ == hs[0].drop_last(),
            field_metrics(protocol@, hs, vs, i as int) == Ok::<_, Seq<char>>(
                metric::metric_views(out@),
            ),
        decreases header@.len() - i,
    {
        proof {
            assert(hs[i as int] == header@[i as int]@);
            assert(vs[i as int] == values@[i as int]@);
        }
        let ghost before = metric::metric_views(out@);
        match parse_field(protocol, header[i], values[i]) {
            Ok(m) => {
                out.push(m);
                assert(metric::metric_views(out@) =~= before.push(m@));
            },
            Err(e) => {
                proof {
                    lemma_failed_field(protocol@, hs, vs, i + 1, hs.len() as int);
                }
                return Err(e);
            },
        }
        i = i + 1;
    }
    Ok(out)
}

/// Parses `/proc/net/netstat` or `/proc/net/snmp`.
pub fn parse_netstat(raw: &str) -> (r: Result<Vec<Metric<Value>>, Error>)
    ensures
        metric::outcome(r) == netstat_outcome(raw@),
{
    let chars = chars_of(raw);
    let lines = lines_of(chars.as_slice());
    let ghost all = text::lines(raw@);
    let mut out: Vec<Metric<Value>> = Vec::new();
    let mut i: usize = 0;
    proof {
        assert(all.skip(0) =~= all);
        assert(metric::metric_views(out@) =~= seq![]);
        if netstat_lines(all) is Ok {
            assert(metric::metric_views(out@) + netstat_lines(all)->Ok_0 =~= netstat_lines(
                all,
            )->Ok_0);
        }
    }
    while i < lines.len()
        invariant
            all == text::lines(raw@),
            text::views(lines@) == all,
            i <= lines@.len(),
            netstat_lines(all) == after_metrics(
                metric::metric_views(out@),
                netstat_lines(all.skip(i as int)),
            ),
        decreases lines@.len() - i,
    {
        let header_line = lines[i];
        let ghost rest = all.skip(i as int);
        assert(rest[0] == all[i as int] && all[i as int] == header_line@);
        if header_line.len() == 0 {
            assert(rest.skip(1) =~= all.skip(i + 1));
            i = i + 1;
        } else {
            if lines.len() - i == 1 {
                let mut m = "header line ".to_owned();
                push_quoted_chars(&mut m, header_line);
                m.push_str(" has no matching value line");
                return Err(Error::new(m));
            }
            assert(rest[1] == all[i + 1] && all[i + 1] == lines@[i + 1]@);
            match parse_pair(header_line, lines[i + 1]) {
                Ok(metrics) => {
                    let ghost had = metric::metric_views(out@);
                    let ghost more = metric::metric_views(metrics@);
                    let mut metrics = metrics;
                    out.append(&mut metrics);
                    proof {
                        assert(metric::metric_views(out@) =~= had + more);
                        assert(rest.skip(2) =~= all.skip(i + 2));
                        if netstat_lines(rest.skip(2)) is Ok {
                            let tail = netstat_lines(rest.skip(2))->Ok_0;
                            assert(had + (more + tail) =~= had + more + tail);
                        }
                    }
                },
                Err(e) => {
                    return Err(e);
                },
            }
            i = i + 2;
        }
    }
    assert(all.skip(i as int) =~= seq![]);
    assert(metric::metric_views(out@) + seq![] =~= metric::metric_views(out@));
    Ok(out)
}

/// What a line of `/proc/net/snmp6` comes to: a field and its value. A field
/// without a `6`, or with nothing behind it, is skipped.
pub open spec fn snmp6_row(line: Seq<char>) -> Row<MetricView<ValueView>> {
    let words = text::words(line);
    let six = text::first_index(words[0], '6');
    if words.len() < 2 || six + 1 >= words[0].len() {
        Row::Skip
    } else {
        match field_metric(words[0].take(six + 1), words[0].skip(six + 1), words[1]) {
            Ok(m) => Row::Keep(m),
            Err(m) => Row::Fail(m),
        }
    }
}

pub open spec fn snmp6_row_at() -> spec_fn(int, Seq<char>) -> Row<MetricView<ValueView>> {
    |i: int, line: Seq<char>| snmp6_row(line)
}

/// What `/proc/net/snmp6` comes to.
pub open spec fn snmp6_outcome(raw: Seq<char>) -> Result<Seq<MetricView<ValueView>>, Seq<char>> {
    rows::rows(text::lines(raw), snmp6_row_at())
}

fn parse_snmp6_row(line: &[char]) -> (r: Result<Option<Metric<Value>>, Error>)
    ensures
        match r {
            Ok(None) => snmp6_row(line@) == Row::<MetricView<ValueView>>::Skip,
            Ok(Some(m)) => snmp6_row(line@) == Row::Keep(m@),
            Err(e) => snmp6_row(line@) == Row::<MetricView<ValueView>>::Fail(e@),
        },
{
    let words = words_of(line);
    assert(text::views(words@).len() == words@.len());
    if words.len() < 2 {
        return Ok(None);
    }
    let field = words[0];
    assert(text::views(words@)[0] == field@);
    assert(text::views(words@)[1] == words@[1]@);
    let six = find_char(field, '6');
    if field.len() - six <= 1 {
        return Ok(None);
    }
    match parse_field(
        slice_subrange(field, 0, six + 1),
        slice_subrange(field, six + 1, field.len()),
        words[1],
    ) {
        Ok(m) => Ok(Some(m)),
        Err(e) => Err(e),
    }
}

/// Parses `/proc/net/snmp6`.
pub fn parse_snmp6(raw: &str) -> (r: Result<Vec<Metric<Value>>, Error>)
    ensures
        metric::outcome(r) == snmp6_outcome(raw@),
{
    let chars = chars_of(raw);
    let lines = lines_of(chars.as_slice());
    let ghost all = text::lines(raw@);
    let mut out: Vec<Metric<Value>> = Vec::new();
    let mut i: usize = 0;
    assert(metric::metric_views(out@) =~= seq![]);
    while i < lines.len()
        invariant
            all == text::lines(raw@),
            text::views(lines@) == all,
            i <= lines@.len(),
            rows::rows(all.take(i as int), snmp6_row_at()) == Ok::<_, Seq<char>>(
                metric::metric_views(out@),
            ),
        decreases lines@.len() - i,
    {
        proof {
            assert(all[i as int] == lines@[i as int]@);
            rows::lemma_next_row(all, snmp6_row_at(), i as int);
        }
        let ghost before = metric::metric_views(out@);
        match parse_snmp6_row(lines[i]) {
            Ok(Some(m)) => {
                out.push(m);
                assert(metric::metric_views(out@) =~= before.push(m@));
            },
            Ok(None) => {},
            Err(e) => {
                proof {
                    rows::lemma_failed_row(all, snmp6_row_at(), i + 1);
                }
                return Err(e);
            },
        }
        i = i + 1;
    }
    assert(all.take(all.len() as int) =~= all);
    Ok(out)
}

/// What the three files come to; the last may be missing.
pub open spec fn merged_outcome(
    netstat: Seq<char>,
    snmp: Seq<char>,
    snmp6: Option<Seq<char>>,
) -> Result<Seq<MetricView<ValueView>>, Seq<char>> {
    let third = match snmp6 {
        Some(raw) => snmp6_outcome(raw),
        None => Ok(seq![]),
    };
    match netstat_outcome(netstat) {
        Err(m) => Err("parsing /proc/net/netstat: "@ + m),
        Ok(a) => match netstat_outcome(snmp) {
            Err(m) => Err("parsing /proc/net/snmp: "@ + m),
            Ok(b) => match third {
                Err(m) => Err("parsing /proc/net/snmp6: "@ + m),
                Ok(c) => Ok(a + b + c),
            },
        },
    }
}

/// What collecting gives, given what came of reading the three files.
pub open spec fn netstat_collected(
    cfg: Config,
    netstat: FileView,
    snmp: FileView,
    snmp6: FileView,
) -> Result<Seq<MetricView<ValueView>>, Seq<char>> {
    match netstat {
        FileView::Contents(a) => match snmp {
            FileView::Contents(b) => match snmp6 {
                FileView::Contents(c) => merged_outcome(a, b, Some(c)),
                FileView::NotFound => merged_outcome(a, b, None),
                FileView::Failed => Err(
                    source::unreadable(cfg.proc_path_of("/proc/net/snmp6"@)),
                ),
            },
            _ => Err(source::unreadable(cfg.proc_path_of("/proc/net/snmp"@))),
        },
        _ => Err(source::unreadable(cfg.proc_path_of("/proc/net/netstat"@))),
    }
}

/// `e` behind the name of what was being done.
fn while_parsing(what: &str, e: Error) -> (r: Error)
    ensures
        r@ == what@ + e@,
{
    let mut m = what.to_owned();
    m.push_str(e.message.as_str());
    Error::new(m)
}

/// Parses the three files; the last may be missing.
pub fn parse_all(netstat: &str, snmp: &str, snmp6: Option<&str>) -> (r: Result<
    Vec<Metric<Value>>,
    Error,
>)
    ensures
        metric::outcome(r) == merged_outcome(
            netstat@,
            snmp@,
            match snmp6 {
                Some(raw) => Some(raw@),
                None => None,
            },
        ),
{
    let mut out = match parse_netstat(netstat) {
        Ok(metrics) => metrics,
        Err(e) => {
            return Err(while_parsing("parsing /proc/net/netstat: ", e));
        },
    };
    let ghost a = metric::metric_views(out@);
    let mut second = match parse_netstat(snmp) {
        Ok(metrics) => metrics,
        Err(e) => {
            return Err(while_parsing("parsing /proc/net/snmp: ", e));
        },
    };
    let ghost b = metric::metric_views(second@);
    out.append(&mut second);
    assert(metric::metric_views(out@) =~= a + b);
    match snmp6 {
        Some(raw) => {
            let mut third = match parse_snmp6(raw) {
                Ok(metrics) => metrics,
                Err(e) => {
                    return Err(while_parsing("parsing /proc/net/snmp6: ", e));
                },
            };
            let ghost c = metric::metric_views(third@);
            out.append(&mut third);
            assert(metric::metric_views(out@) =~= a + b + c);
        },
        None => {
            assert(a + b + seq![] =~= a + b);
        },
    }
    Ok(out)
}

pub struct NetstatCollector;

impl NetstatCollector {
    pub fn name(&self) -> (r: &'static str)
        ensures
            r@ == "netstat"@,
    {
        "netstat"
    }

    pub fn netstat_path(&self, cfg: &Config) -> (r: String)
        ensures
            r@ == cfg.proc_path_of("/proc/net/netstat"@),
    {
        cfg.proc_path("/proc/net/netstat")
    }

    pub fn snmp_path(&self, cfg: &Config) -> (r: String)
        ensures
            r@ == cfg.proc_path_of("/proc/net/snmp"@),
    {
        cfg.proc_path("/proc/net/snmp")
    }

    pub fn snmp6_path(&self, cfg: &Config) -> (r: String)
        ensures
            r@ == cfg.proc_path_of("/proc/net/snmp6"@),
    {
        cfg.proc_path("/proc/net/snmp6")
    }

    /// The metrics, given what came of reading the three files.
    pub fn collect(
        &self,
        cfg: &Config,
        netstat: &FileRead,
        snmp: &FileRead,
        snmp6: &FileRead,
    ) -> (r: Result<Vec<Metric<Value>>, Error>)
        ensures
            metric::outcome(r) == netstat_collected(*cfg, netstat@, snmp@, snmp6@),
    {
        let first = match netstat {
            FileRead::Contents(raw) => raw,
            _ => {
                return Err(unreadable_error(self.netstat_path(cfg).as_str()));
            },
        };
        let second = match snmp {
            FileRead::Contents(raw) => raw,
            _ => {
                return Err(unreadable_error(self.snmp_path(cfg).as_str()));
            },
        };
        let third = match snmp6 {
            FileRead::Contents(raw) => Some(raw.as_str()),
            FileRead::NotFound => None,
            FileRead::Failed => {
                return Err(unreadable_error(self.snmp6_path(cfg).as_str()));
            },
        };
        parse_all(first.as_str(), second.as_str(), third)
    }
}

// ------------------------------------------------------------------------ laws

/// The family of a field holds the field's own number, as it is spelled.
pub proof fn every_field_has_its_family(protocol: Seq<char>, field: Seq<char>, value: Seq<char>)
    ensures
        field_metric(protocol, field, value) is Ok <==> number::is_float(value),
        field_metric(protocol, field, value) is Ok ==> {
            let m = field_metric(protocol, field, value)->Ok_0;
            &&& m.name == "node_netstat_"@ + protocol + "_"@ + field
            &&& m.mtype == MetricType::Untyped
            &&& m.samples.len() == 1
            &&& m.samples[0].labels.len() == 0
            &&& quantity::spells_times(m.samples[0].value, value, 1, 1)
        },
{
    quantity::literals_are_scaled(value, metric::Scale::Unit);
}

/// The words of a header line and of its value line belong together one by one:
/// each field behind the protocol has the number at its own place. A pair of
/// lines parses where there are as many numbers as fields.
pub proof fn every_field_has_its_value(header_line: Seq<char>, value_line: Seq<char>, k: int)
    ensures
        ({
            let header = text::split(header_line, ' ');
            let values = text::split(value_line, ' ');
            let families = pair_metrics(header_line, value_line)->Ok_0;
            &&& pair_metrics(header_line, value_line) is Ok <==> header[0].len() > 0
                && header[0].last() == ':' && header.len() == values.len() && forall|j: int|
                1 <= j < values.len() ==> number::is_float(#[trigger] values[j])
            &&& pair_metrics(header_line, value_line) is Ok ==> families.len() == header.len() - 1
            &&& pair_metrics(header_line, value_line) is Ok && 1 <= k < header.len() ==> {
                let m = families[k - 1];
                &&& m.name == "node_netstat_"@ + header[0].take(header[0].len() - 1) + "_"@
                    + header[k]
                &&& m.mtype == MetricType::Untyped
                &&& m.samples.len() == 1
                &&& m.samples[0].labels.len() == 0
                &&& quantity::spells_times(m.samples[0].value, values[k], 1, 1)
            }
        }),
{
    let header = text::split(header_line, ' ');
    let values = text::split(value_line, ' ');
    let protocol = header[0].drop_last();
    if header[0].len() > 0 && header.len() == values.len() {
        assert(protocol =~= header[0].take(header[0].len() - 1));
        lemma_fields(protocol, header, values, header.len() as int);
        if 1 <= k < header.len() {
            every_field_has_its_family(protocol, header[k], values[k]);
        }
    }
}

proof fn lemma_fields(
    protocol: Seq<char>,
    header: Seq<Seq<char>>,
    values: Seq<Seq<char>>,
    n: int,
)
    requires
        1 <= n <= header.len(),
        header.len() == values.len(),
    ensures
        field_metrics(protocol, header, values, n) is Ok <==> forall|j: int|
            1 <= j < n ==> number::is_float(#[trigger] values[j]),
        field_metrics(protocol, header, values, n) is Ok ==> field_metrics(
            protocol,
            header,
            values,
            n,
        )->Ok_0.len() == n - 1 && forall|k: int|
            #![trigger values[k]]
            1 <= k < n ==> field_metric(protocol, header[k], values[k]) == Ok::<_, Seq<char>>(
                field_metrics(protocol, header, values, n)->Ok_0[k - 1],
            ),
    decreases n,
{
    if n > 1 {
        lemma_fields(protocol, header, values, n - 1);
        assert(number::is_float(values[n - 1]) <==> field_metric(
            protocol,
            header[n - 1],
            values[n - 1],
        ) is Ok);
    }
}

/// Header lines and value lines in turn.
pub open spec fn in_turn(headers: Seq<Seq<char>>, values: Seq<Seq<char>>) -> Seq<Seq<char>> {
    Seq::new(
        2 * headers.len(),
        |i: int|
            if i % 2 == 0 {
                headers[i / 2]
            } else {
                values[i / 2]
            },
    )
}

/// A file of header lines and value lines in turn comes to the families of all
/// the pairs, pair after pair.
pub proof fn every_pair_is_exported(
    headers: Seq<Seq<char>>,
    values: Seq<Seq<char>>,
    families: Seq<Seq<MetricView<ValueView>>>,
)
    requires
        headers.len() == values.len(),
        headers.len() == families.len(),
        forall|i: int| 0 <= i < headers.len() ==> (#[trigger] headers[i]).len() > 0,
        forall|i: int|
            #![trigger families[i]]
            0 <= i < headers.len() ==> pair_metrics(headers[i], values[i]) == Ok::<_, Seq<char>>(
                families[i],
            ),
    ensures
        netstat_lines(in_turn(headers, values)) == Ok::<_, Seq<char>>(rows::joined(families)),
    decreases headers.len(),
{
    let lines = in_turn(headers, values);
    if headers.len() == 0 {
        assert(families =~= seq![]);
        assert(netstat_lines(lines) =~= Ok::<_, Seq<char>>(seq![]));
    } else {
        let hs = headers.skip(1);
        let vs = values.skip(1);
        let fs = families.skip(1);
        assert forall|i: int| 0 <= i < hs.len() implies (#[trigger] hs[i]).len() > 0 by {
            assert(hs[i] == headers[i + 1]);
        }
        assert forall|i: int| #![trigger fs[i]] 0 <= i < hs.len() implies pair_metrics(hs[i], vs[i])
            == Ok::<_, Seq<char>>(fs[i]) by {
            assert(fs[i] == families[i + 1]);
        }
        every_pair_is_exported(hs, vs, fs);
        assert(lines[0] == headers[0] && lines[1] == values[0]);
        assert(lines.skip(2) =~= in_turn(hs, vs)) by {
            assert forall|i: int| 0 <= i < lines.skip(2).len() implies lines.skip(2)[i] == in_turn(
                hs,
                vs,
            )[i] by {
                assert((i + 2) / 2 == i / 2 + 1 && (i + 2) % 2 == i % 2);
            }
        }
        assert(pair_metrics(headers[0], values[0]) == Ok::<_, Seq<char>>(families[0]));
        lemma_joined_front(families);
    }
}

proof fn lemma_joined_front(parts: Seq<Seq<MetricView<ValueView>>>)
    requires
        parts.len() > 0,
    ensures
        rows::joined(parts) == parts[0] + rows::joined(parts.skip(1)),
    decreases parts.len(),
{
    let front = parts.drop_last();
    let rest = parts.skip(1);
    if parts.len() == 1 {
        assert(front =~= seq![]);
        assert(rest =~= seq![]);
        assert(rows::joined(parts) =~= parts[0] + rows::joined(rest));
    } else {
        lemma_joined_front(front);
        assert(front.skip(1) =~= rest.drop_last());
        assert(rest.last() == parts.last());
        let middle = rows::joined(rest.drop_last());
        assert(parts[0] + middle + parts.last() =~= parts[0] + (middle + parts.last()));
    }
}

/// Where a header is due, an empty line does not matter, and the end of the file
/// is in order; behind a header it is not.
pub proof fn headers_need_values(header: Seq<char>, rest: Seq<Seq<char>>)
    requires
        header.len() > 0,
    ensures
        netstat_lines(seq![Seq::<char>::empty()] + rest) == netstat_lines(rest),
        netstat_lines(seq![]) == Ok::<Seq<MetricView<ValueView>>, Seq<char>>(seq![]),
        netstat_lines(seq![header]) is Err,
{
    assert((seq![Seq::<char>::empty()] + rest).skip(1) =~= rest);
}

/// A field of `/proc/net/snmp6` is named by its protocol, which ends at the first
/// `6`, and the rest of its name; a field without either part is skipped.
pub proof fn snmp6_fields_end_their_protocol_at_six(
    line: Seq<char>,
    protocol: Seq<char>,
    field: Seq<char>,
    value: Seq<char>,
    more: Seq<Seq<char>>,
)
    requires
        !protocol.contains('6'),
    ensures
        text::words(line) == seq![protocol + seq!['6'] + field, value] + more && field.len() > 0
            && number::is_float(value) ==> snmp6_row(line) is Keep && {
            let m = snmp6_row(line)->Keep_0;
            &&& m.name == "node_netstat_"@ + protocol + seq!['6'] + "_"@ + field
            &&& m.samples.len() == 1
            &&& m.samples[0].labels.len() == 0
            &&& quantity::spells_times(m.samples[0].value, value, 1, 1)
        },
        text::words(line) == seq![protocol + seq!['6'] + field, value] + more && field.len() > 0
            && !number::is_float(value) ==> snmp6_row(line) is Fail,
        text::words(line) == seq![protocol, value] + more || text::words(line) == seq![
            protocol + seq!['6'],
            value,
        ] + more || text::words(line).len() < 2 ==> snmp6_row(line) is Skip,
{
    let words = text::words(line);
    let name = protocol + seq!['6'] + field;
    let head = protocol + seq!['6'];
    text::characters_are_found(protocol, '6', field);
    text::characters_are_found(protocol, '6', seq![]);
    assert(protocol + seq!['6'] + Seq::<char>::empty() =~= head);
    if words == seq![name, value] + more {
        assert(words[0] == name && words[1] == value);
        assert(name.take(protocol.len() as int + 1) =~= head);
        assert(name.skip(protocol.len() as int + 1) =~= field);
        every_field_has_its_family(head, field, value);
        assert("node_netstat_"@ + head + "_"@ + field =~= "node_netstat_"@ + protocol + seq!['6']
            + "_"@ + field);
    }
    if words == seq![protocol, value] + more {
        assert(words[0] == protocol);
    }
    if words == seq![head, value] + more {
        assert(words[0] == head);
    }
}

/// Where `/proc/net/snmp6` parses, its families are those of the lines that are
/// not skipped, in order. The result is the positions of those lines.
pub proof fn every_snmp6_line_is_exported(raw: Seq<char>) -> (at: Seq<int>)
    requires
        snmp6_outcome(raw) is Ok,
    ensures
        ({
            let lines = text::lines(raw);
            let families = snmp6_outcome(raw)->Ok_0;
            &&& at.len() == families.len()
            &&& forall|i: int|
                0 <= i < at.len() ==> 0 <= #[trigger] at[i] < lines.len() && snmp6_row(
                    lines[at[i]],
                ) == Row::Keep(families[i])
            &&& forall|i: int, j: int| 0 <= i < j < at.len() ==> #[trigger] at[i] < #[trigger] at[j]
            &&& forall|k: int|
                #![trigger lines[k]]
                0 <= k < lines.len() ==> (at.contains(k) <==> !(snmp6_row(lines[k]) is Skip))
        }),
{
    let lines = text::lines(raw);
    let row = snmp6_row_at();
    let at = rows::rows_come_of_their_lines(lines, row);
    assert forall|i: int| 0 <= i < at.len() implies 0 <= #[trigger] at[i] < lines.len()
        && snmp6_row(lines[at[i]]) == Row::Keep(snmp6_outcome(raw)->Ok_0[i]) by {
        assert(row(at[i], lines[at[i]]) == Row::Keep(snmp6_outcome(raw)->Ok_0[i]));
    }
    assert forall|k: int| #![trigger lines[k]] 0 <= k < lines.len() implies (at.contains(k)
        <==> !(snmp6_row(lines[k]) is Skip)) by {
        assert(row(k, lines[k]) == snmp6_row(lines[k]));
    }
    at
}

/// The families of the three files come one file after the other, and none of
/// them is left out; a missing third file adds nothing.
pub proof fn every_file_is_exported(netstat: Seq<char>, snmp: Seq<char>, snmp6: Seq<char>)
    ensures
        merged_outcome(netstat, snmp, Some(snmp6)) is Ok <==> netstat_outcome(netstat) is Ok
            && netstat_outcome(snmp) is Ok && snmp6_outcome(snmp6) is Ok,
        merged_outcome(netstat, snmp, None) is Ok <==> netstat_outcome(netstat) is Ok
            && netstat_outcome(snmp) is Ok,
        merged_outcome(netstat, snmp, Some(snmp6)) is Ok ==> merged_outcome(
            netstat,
            snmp,
            Some(snmp6),
        )->Ok_0 == rows::joined(
            seq![
                netstat_outcome(netstat)->Ok_0,
                netstat_outcome(snmp)->Ok_0,
                snmp6_outcome(snmp6)->Ok_0,
            ],
        ),
        merged_outcome(netstat, snmp, None) is Ok ==> merged_outcome(netstat, snmp, None)->Ok_0
            == rows::joined(seq![netstat_outcome(netstat)->Ok_0, netstat_outcome(snmp)->Ok_0]),
{
    let a = netstat_outcome(netstat)->Ok_0;
    let b = netstat_outcome(snmp)->Ok_0;
    let c = snmp6_outcome(snmp6)->Ok_0;
    let none = Seq::<Seq<MetricView<ValueView>>>::empty();
    assert(seq![a, b, c].drop_last() =~= seq![a, b]);
    assert(seq![a, b].drop_last() =~= seq![a]);
    assert(seq![a].drop_last() =~= none);
    assert(rows::joined(none) =~= seq![]);
    assert(rows::joined(seq![a]) =~= a);
    assert(rows::joined(seq![a, b]) =~= a + b);
    assert(rows::joined(seq![a, b, c]) =~= a + b + c);
    assert(a + b + Seq::<MetricView<ValueView>>::empty() =~= a + b);
}

/// Hosts without IPv6 lack the third file, which is no error; that a file cannot
/// be read is one, and so is the lack of either of the others.
pub proof fn hosts_may_lack_ipv6(
    cfg: Config,
    a: Seq<char>,
    b: Seq<char>,
    netstat: FileView,
    snmp: FileView,
    snmp6: FileView,
)
    ensures
        netstat_collected(cfg, FileView::Contents(a), FileView::Contents(b), FileView::NotFound)
            == merged_outcome(a, b, None),
        snmp6 is Failed ==> netstat_collected(cfg, netstat, snmp, snmp6) is Err,
        !(netstat is Contents) || !(snmp is Contents) ==> netstat_collected(
            cfg,
            netstat,
            snmp,
            snmp6,
        ) is Err,
{
}

} // verus!
