//! `/proc/net/sockstat` and `/proc/net/sockstat6`: per-protocol socket
//! counts.
//!
//! Emits `node_sockstat_<Proto>_<Field>` gauges. The IPv4 file additionally
//! carries a `sockets: used <n>` header row, which becomes
//! `node_sockstat_sockets_used`. The IPv6 file uses protocol prefixes that
//! end in `6` (`TCP6:`, `UDP6:`), and the metric names keep that `6`.
//!
//! The kernel counts `mem` in pages; `<Proto>_mem_bytes = mem * pagesize` is
//! emitted in addition.
//!
//! On a kernel with IPv6 disabled, `/proc/net/sockstat6` does not exist; that
//! is tolerated.

use vstd::prelude::*;
use vstd::slice::slice_subrange;

use crate::config::Config;
use crate::error::Error;
use crate::metric;
use crate::metric::{Metric, MetricType, MetricView, Scale, Value, ValueView};
use crate::number;
use crate::number::{parse_i64, push_decimal};
use crate::quantity;
use crate::rows;
use crate::rows::Row;
use crate::source;
use crate::source::{unreadable_error, FileRead, FileView};
use crate::text;
use crate::text::{
    chars_of, lines_of, push_chars, push_quoted_chars, push_quoted_list, same, words_of,
};

verus! {

/// The page size where the system tells none.
pub const DEFAULT_PAGESIZE: u64 = 4096;

/// The page size, given what the system tells.
pub fn pagesize_bytes(raw: i64) -> (r: u64)
    ensures
        r == if raw <= 0 {
            DEFAULT_PAGESIZE as int
        } else {
            raw as int
        },
        raw <= 0 ==> r == 4096,
{
    if raw <= 0 {
        DEFAULT_PAGESIZE
    } else {
        raw as u64
    }
}

/// The value of the first pair whose key is `key`.
pub open spec fn pair_value(kvs: Seq<Seq<char>>, key: Seq<char>) -> Option<Seq<char>>
    decreases kvs.len(),
{
    if kvs.len() < 2 {
        None
    } else if kvs[0] == key {
        Some(kvs[1])
    } else {
        pair_value(kvs.skip(2), key)
    }
}

/// The family of one pair, or the message for a value that is no number.
pub open spec fn pair_metric(
    proto: Seq<char>,
    key: Seq<char>,
    value: Seq<char>,
) -> Result<MetricView<ValueView>, Seq<char>> {
    match number::i64_value(value) {
        Some(n) => Ok(
            MetricView::single(
                "node_sockstat_"@ + proto + "_"@ + key,
                "Number of "@ + proto + " sockets in state "@ + key + "."@,
                MetricType::Gauge,
                ValueView::signed(n),
            ),
        ),
        None => Err(
            "sockstat: parsing "@ + proto + "."@ + key + " = "@ + text::debug_form(value),
        ),
    }
}

/// The families of the first `n` pairs, or the message of the first of them
/// that is faulty.
pub open spec fn pair_metrics(proto: Seq<char>, kvs: Seq<Seq<char>>, n: int) -> Result<
    Seq<MetricView<ValueView>>,
    Seq<char>,
>
    decreases n,
{
    if n <= 0 {
        Ok(seq![])
    } else {
        match pair_metrics(proto, kvs, n - 1) {
            Ok(before) => match pair_metric(proto, kvs[2 * (n - 1)], kvs[2 * (n - 1) + 1]) {
                Ok(m) => Ok(before.push(m)),
                Err(m) => Err(m),
            },
            Err(m) => Err(m),
        }
    }
}

/// The memory in pages: the last of the first `n` pairs whose key is `mem`.
pub open spec fn mem_pages(kvs: Seq<Seq<char>>, n: int) -> Option<i64>
    decreases n,
{
    if n <= 0 {
        None
    } else if kvs[2 * (n - 1)] == "mem"@ {
        number::i64_value(kvs[2 * (n - 1) + 1])
    } else {
        mem_pages(kvs, n - 1)
    }
}

/// The family of the memory in bytes, where the row tells the pages.
pub open spec fn mem_bytes(proto: Seq<char>, pages: Option<i64>, pagesize: u64) -> Seq<
    MetricView<ValueView>,
> {
    match pages {
        Some(pages) => seq![
            MetricView::single(
                "node_sockstat_"@ + proto + "_mem_bytes"@,
                "Number of "@ + proto + " sockets in state mem_bytes."@,
                MetricType::Gauge,
                ValueView::signed(pages).scaled(Scale::Times(pagesize)),
            ),
        ],
        None => seq![],
    }
}

/// The families of the row of a protocol.
pub open spec fn proto_row(proto: Seq<char>, kvs: Seq<Seq<char>>, pagesize: u64) -> Row<
    Seq<MetricView<ValueView>>,
> {
    let n = kvs.len() as int / 2;
    match pair_metrics(proto, kvs, n) {
        Ok(metrics) => Row::Keep(metrics + mem_bytes(proto, mem_pages(kvs, n), pagesize)),
        Err(m) => Row::Fail(m),
    }
}

/// The family of the `sockets` row of line `i`.
pub open spec fn sockets_row(i: int, kvs: Seq<Seq<char>>) -> Row<Seq<MetricView<ValueView>>> {
    match pair_value(kvs, "used"@) {
        None => Row::Fail(
            "sockstat: line "@ + number::decimal((i + 1) as nat) + " sockets row missing `used`"@,
        ),
        Some(used) => match number::i64_value(used) {
            Some(n) => Row::Keep(
                seq![
                    MetricView::single(
                        "node_sockstat_sockets_used"@,
                        "Number of IPv4 sockets in use."@,
                        MetricType::Gauge,
                        ValueView::signed(n),
                    ),
                ],
            ),
            None => Row::Fail("sockstat: parsing sockets.used = "@ + text::debug_form(used)),
        },
    }
}

/// What line `i` comes to: a protocol with a colon behind it, then pairs of a
/// key and a value.
pub open spec fn sockstat_row(ipv6: bool, pagesize: u64, i: int, line: Seq<char>) -> Row<
    Seq<MetricView<ValueView>>,
> {
    let words = text::words(line);
    let lineno = number::decimal((i + 1) as nat);
    let kvs = words.skip(1);
    let proto = words[0].drop_last();
    if line.len() == 0 {
        Row::Skip
    } else if words.len() == 0 {
        Row::Fail("sockstat: line "@ + lineno + " empty"@)
    } else if !text::ends_with(words[0], ':') {
        Row::Fail(
            "sockstat: line "@ + lineno + " missing ':' on "@ + text::debug_form(words[0]),
        )
    } else if kvs.len() == 0 || kvs.len() % 2 != 0 {
        Row::Fail(
            "sockstat: line "@ + lineno + " has malformed key/value pairs: "@
                + text::debug_list_form(kvs),
        )
    } else if proto == "sockets"@ {
        // The total is that of the IPv4 file alone.
        if ipv6 {
            Row::Skip
        } else {
            sockets_row(i, kvs)
        }
    } else {
        proto_row(proto, kvs, pagesize)
    }
}

pub open spec fn sockstat_row_at(ipv6: bool, pagesize: u64) -> spec_fn(int, Seq<char>) -> Row<
    Seq<MetricView<ValueView>>,
> {
    |i: int, line: Seq<char>| sockstat_row(ipv6, pagesize, i, line)
}

/// What one file comes to.
pub open spec fn sockstat_rows(raw: Seq<char>, ipv6: bool, pagesize: u64) -> Result<
    Seq<MetricView<ValueView>>,
    Seq<char>,
> {
    match rows::rows(text::lines(raw), sockstat_row_at(ipv6, pagesize)) {
        Ok(kept) => Ok(rows::joined(kept)),
        Err(m) => Err(m),
    }
}

/// What the two files come to; the second may be missing.
pub open spec fn sockstat_outcome(
    v4: Seq<char>,
    v6: Option<Seq<char>>,
    pagesize: u64,
) -> Result<Seq<MetricView<ValueView>>, Seq<char>> {
    let more = match v6 {
        Some(raw) => sockstat_rows(raw, true, pagesize),
        None => Ok(seq![]),
    };
    match sockstat_rows(v4, false, pagesize) {
        Err(m) => Err("parsing /proc/net/sockstat: "@ + m),
        Ok(first) => match more {
            Err(m) => Err("parsing /proc/net/sockstat6: "@ + m),
            Ok(second) => if first.len() + second.len() == 0 {
                Err("sockstat: no values parsed"@)
            } else {
                Ok(first + second)
            },
        },
    }
}

/// Finds the value of the first pair whose key is `key`.
pub fn lookup_kv<'a>(kvs: &[&'a [char]], key: &str) -> (r: Option<&'a [char]>)
    ensures
        match r {
            Some(v) => pair_value(text::views(kvs@), key@) == Some(v@),
            None => pair_value(text::views(kvs@), key@) is None,
        },
{
    let ghost all = text::views(kvs@);
    let mut i: usize = 0;
    assert(all.skip(0) =~= all);
    while kvs.len() - i >= 2
        invariant
            i <= kvs@.len(),
            all == text::views(kvs@),
            pair_value(all, key@) == pair_value(all.skip(i as int), key@),
        decreases kvs@.len() - i,
    {
        proof {
            assert(all.skip(i as int)[0] == kvs@[i as int]@);
            assert(all.skip(i as int)[1] == kvs@[i + 1]@);
            assert(all.skip(i as int).skip(2) =~= all.skip(i + 2));
        }
        if same(kvs[i], key) {
            return Some(kvs[i + 1]);
        }
        i = i + 2;
    }
    None
}

/// The start of a message about line `i`.
fn at_line(i: usize) -> (r: String)
    requires
        i < usize::MAX,
    ensures
        r@ == "sockstat: line "@ + number::decimal((i + 1) as nat),
{
    let mut m = "sockstat: line ".to_owned();
    push_decimal(&mut m, i as u64 + 1);
    m
}

fn parse_pair(proto: &[char], key: &[char], value: &[char]) -> (r: Result<
    (i64, Metric<Value>),
    Error,
>)
    ensures
        match r {
            Ok((n, m)) => pair_metric(proto@, key@, value@) == Ok::<_, Seq<char>>(m@)
                && number::i64_value(value@) == Some(n),
            Err(e) => pair_metric(proto@, key@, value@) == Err::<MetricView<ValueView>, _>(e@),
        },
{
    match parse_i64(value) {
        Some(n) => {
            let mut name = "node_sockstat_".to_owned();
            push_chars(&mut name, proto);
            name.push_str("_");
            push_chars(&mut name, key);
            let mut help = "Number of ".to_owned();
            push_chars(&mut help, proto);
            help.push_str(" sockets in state ");
            push_chars(&mut help, key);
            help.push_str(".");
            Ok(
                (
                    n,
                    Metric::single(
                        name.as_str(),
                        help.as_str(),
                        MetricType::Gauge,
                        Value::signed(n),
                    ),
                ),
            )
        },
        None => {
            let mut m = "sockstat: parsing ".to_owned();
            push_chars(&mut m, proto);
            m.push_str(".");
            push_chars(&mut m, key);
            m.push_str(" = ");
            push_quoted_chars(&mut m, value);
            Err(Error::new(m))
        },
    }
}

proof fn lemma_failed_pair(proto: Seq<char>, kvs: Seq<Seq<char>>, n: int, all: int)
    requires
        0 <= n <= all,
        pair_metrics(proto, kvs, n) is Err,
    ensures
        pair_metrics(proto, kvs, all) == pair_metrics(proto, kvs, n),
    decreases all,
{
    if n < all {
        lemma_failed_pair(proto, kvs, n, all - 1);
    }
}

fn parse_proto(proto: &[char], kvs: &[&[char]], pagesize: u64) -> (r: Result<
    Vec<Metric<Value>>,
    Error,
>)
    requires
        kvs@.len() % 2 == 0,
    ensures
        match r {
            Ok(v) => proto_row(proto@, text::views(kvs@), pagesize) == Row::Keep(
                metric::metric_views(v@),
            ),
            Err(e) => proto_row(proto@, text::views(kvs@), pagesize) == Row::<
                Seq<MetricView<ValueView>>,
            >::Fail(e@),
        },
{
    let ghost all = text::views(kvs@);
    let ghost n = all.len() as int / 2;
    let mut out: Vec<Metric<Value>> = Vec::new();
    let mut pages: Option<i64> = None;
    let mut i: usize = 0;
    assert(metric::metric_views(out@) =~= seq![]);
    while i < kvs.len()
        invariant
            i <= kvs@.len(),
            i % 2 == 0,
            kvs@.len() % 2 == 0,
            all == text::views(kvs@),
            n == all.len() as int / 2,
            pages == mem_pages(all, i as int / 2),
            pair_metrics(proto@, all, i as int / 2) == Ok::<_, Seq<char>>(
                metric::metric_views(out@),
            ),
        decreases kvs@.len() - i,
    {
        let ghost before = metric::metric_views(out@);
        proof {
            let k = i as int / 2;
            assert((i as int + 2) / 2 == k + 1);
            assert(all[2 * k] == kvs@[i as int]@);
            assert(all[2 * k + 1] == kvs@[i + 1]@);
        }
        match parse_pair(proto, kvs[i], kvs[i + 1]) {
            Ok((val, m)) => {
                if same(kvs[i], "mem") {
                    pages = Some(val);
                }
                out.push(m);
                assert(metric::metric_views(out@) =~= before.push(m@));
            },
            Err(e) => {
                proof {
                    lemma_failed_pair(proto@, all, i as int / 2 + 1, n);
                }
                return Err(e);
            },
        }
        i = i + 2;
    }
    let ghost before = metric::metric_views(out@);
    match pages {
        Some(p) => {
            let mut name = "node_sockstat_".to_owned();
            push_chars(&mut name, proto);
            name.push_str("_mem_bytes");
            let mut help = "Number of ".to_owned();
            push_chars(&mut help, proto);
            help.push_str(" sockets in state mem_bytes.");
            let m = Metric::single(
                name.as_str(),
                help.as_str(),
                MetricType::Gauge,
                Value::signed(p).scaled(Scale::Times(pagesize)),
            );
            out.push(m);
            assert(metric::metric_views(out@) =~= before + seq![m@]);
        },
        None => {
            assert(before + seq![] =~= before);
        },
    }
    Ok(out)
}

fn parse_sockets(i: usize, kvs: &[&[char]]) -> (r: Result<Vec<Metric<Value>>, Error>)
    requires
        i < usize::MAX,
    ensures
        match r {
            Ok(v) => sockets_row(i as int, text::views(kvs@)) == Row::Keep(
                metric::metric_views(v@),
            ),
            Err(e) => sockets_row(i as int, text::views(kvs@)) == Row::<
                Seq<MetricView<ValueView>>,
            >::Fail(e@),
        },
{
    let used = match lookup_kv(kvs, "used") {
        Some(used) => used,
        None => {
            let mut m = at_line(i);
            m.push_str(" sockets row missing `used`");
            return Err(Error::new(m));
        },
    };
    match parse_i64(used) {
        Some(n) => {
            let m = Metric::single(
                "node_sockstat_sockets_used",
                "Number of IPv4 sockets in use.",
                MetricType::Gauge,
                Value::signed(n),
            );
            let out = vec![m];
            assert(metric::metric_views(out@) =~= seq![m@]);
            Ok(out)
        },
        None => {
            let mut m = "sockstat: parsing sockets.used = ".to_owned();
            push_quoted_chars(&mut m, used);
            Err(Error::new(m))
        },
    }
}

fn parse_row(ipv6: bool, pagesize: u64, i: usize, line: &[char]) -> (r: Result<
    Option<Vec<Metric<Value>>>,
    Error,
>)
    requires
        i < usize::MAX,
    ensures
        match r {
            Ok(None) => sockstat_row(ipv6, pagesize, i as int, line@) == Row::<
                Seq<MetricView<ValueView>>,
            >::Skip,
            Ok(Some(v)) => sockstat_row(ipv6, pagesize, i as int, line@) == Row::Keep(
                metric::metric_views(v@),
            ),
            Err(e) => sockstat_row(ipv6, pagesize, i as int, line@) == Row::<
                Seq<MetricView<ValueView>>,
            >::Fail(e@),
        },
{
    if line.len() == 0 {
        return Ok(None);
    }
    let words = words_of(line);
    assert(text::views(words@).len() == words@.len());
    if words.len() == 0 {
        let mut m = at_line(i);
        m.push_str(" empty");
        return Err(Error::new(m));
    }
    let head = words[0];
    assert(text::views(words@)[0] == head@);
    if head.len() == 0 || head[head.len() - 1] != ':' {
        let mut m = at_line(i);
        m.push_str(" missing ':' on ");
        push_quoted_chars(&mut m, head);
        return Err(Error::new(m));
    }
    let proto = slice_subrange(head, 0, head.len() - 1);
    let kvs = slice_subrange(words.as_slice(), 1, words.len());
    assert(proto@ =~= head@.drop_last());
    assert(text::views(kvs@) =~= text::views(words@).skip(1));
    if kvs.len() == 0 || kvs.len() % 2 != 0 {
        let mut m = at_line(i);
        m.push_str(" has malformed key/value pairs: ");
        push_quoted_list(&mut m, kvs);
        return Err(Error::new(m));
    }
    let metrics = if same(proto, "sockets") {
        if ipv6 {
            return Ok(None);
        }
        parse_sockets(i, kvs)
    } else {
        parse_proto(proto, kvs, pagesize)
    };
    match metrics {
        Ok(v) => Ok(Some(v)),
        Err(e) => Err(e),
    }
}

/// Parses one file and adds its families to `out`.
fn parse_one(raw: &str, ipv6: bool, pagesize: u64, out: &mut Vec<Metric<Value>>) -> (r: Result<
    (),
    Error,
>)
    ensures
        match r {
            Ok(_) => sockstat_rows(raw@, ipv6, pagesize) is Ok && metric::metric_views(
                final(out)@,
            ) == metric::metric_views(old(out)@) + sockstat_rows(raw@, ipv6, pagesize)->Ok_0,
            Err(e) => sockstat_rows(raw@, ipv6, pagesize) == Err::<
                Seq<MetricView<ValueView>>,
                _,
            >(e@),
        },
{
    let chars = chars_of(raw);
    let lines = lines_of(chars.as_slice());
    let ghost all = text::lines(raw@);
    let ghost row = sockstat_row_at(ipv6, pagesize);
    let ghost start = metric::metric_views(out@);
    let ghost mut kept: Seq<Seq<MetricView<ValueView>>> = seq![];
    let mut i: usize = 0;
    assert(start + rows::joined(kept) =~= start);
    while i < lines.len()
        invariant
            all == text::lines(raw@),
            row == sockstat_row_at(ipv6, pagesize),
            text::views(lines@) == all,
            i <= lines@.len(),
            rows::rows(all.take(i as int), row) == Ok::<_, Seq<char>>(kept),
            metric::metric_views(out@) == start + rows::joined(kept),
        decreases lines@.len() - i,
    {
        proof {
            assert(all[i as int] == lines@[i as int]@);
            rows::lemma_next_row(all, row, i as int);
        }
        match parse_row(ipv6, pagesize, i, lines[i]) {
            Ok(Some(metrics)) => {
                let ghost had = metric::metric_views(out@);
                let ghost more = metric::metric_views(metrics@);
                let mut metrics = metrics;
                out.append(&mut metrics);
                proof {
                    assert(metric::metric_views(out@) =~= had + more);
                    assert(kept.push(more).drop_last() =~= kept);
                    assert(start + rows::joined(kept) + more =~= start + (rows::joined(kept)
                        + more));
                    kept = kept.push(more);
                }
            },
            Ok(None) => {},
            Err(e) => {
                proof {
                    rows::lemma_failed_row(all, row, i + 1);
                }
                return Err(e);
            },
        }
        i = i + 1;
    }
    assert(all.take(all.len() as int) =~= all);
    Ok(())
}

/// Parses the two files; the second may be missing.
pub fn parse(v4: &str, v6: Option<&str>, pagesize: u64) -> (r: Result<
    Vec<Metric<Value>>,
    Error,
>)
    ensures
        metric::outcome(r) == sockstat_outcome(
            v4@,
            match v6 {
                Some(raw) => Some(raw@),
                None => None,
            },
            pagesize,
        ),
{
    let mut out: Vec<Metric<Value>> = Vec::new();
    assert(metric::metric_views(out@) =~= seq![]);
    match parse_one(v4, false, pagesize, &mut out) {
        Ok(_) => {},
        Err(e) => {
            let mut m = "parsing /proc/net/sockstat: ".to_owned();
            m.push_str(e.message.as_str());
            return Err(Error::new(m));
        },
    }
    let ghost first = sockstat_rows(v4@, false, pagesize)->Ok_0;
    assert(metric::metric_views(out@) =~= first);
    match v6 {
        Some(raw) => {
            match parse_one(raw, true, pagesize, &mut out) {
                Ok(_) => {},
                Err(e) => {
                    let mut m = "parsing /proc/net/sockstat6: ".to_owned();
                    m.push_str(e.message.as_str());
                    return Err(Error::new(m));
                },
            }
        },
        None => {
            assert(first + seq![] =~= first);
        },
    }
    if out.len() == 0 {
        assert(metric::metric_views(out@).len() == 0);
        return Err(Error::new("sockstat: no values parsed".to_owned()));
    }
    assert(metric::metric_views(out@).len() > 0);
    Ok(out)
}

pub struct SockstatCollector;

impl SockstatCollector {
    pub fn name(&self) -> (r: &'static str)
        ensures
            r@ == "sockstat"@,
    {
        "sockstat"
    }

    /// The file of the IPv4 sockets.
    pub fn v4_path(&self, cfg: &Config) -> (r: String)
        ensures
            r@ == cfg.proc_path_of("/proc/net/sockstat"@),
    {
        cfg.proc_path("/proc/net/sockstat")
    }

    /// The file of the IPv6 sockets.
    pub fn v6_path(&self, cfg: &Config) -> (r: String)
        ensures
            r@ == cfg.proc_path_of("/proc/net/sockstat6"@),
    {
        cfg.proc_path("/proc/net/sockstat6")
    }

    /// The metrics, given what came of reading the two files and the page
    /// size as the system tells it.
    pub fn collect(&self, cfg: &Config, v4: &FileRead, v6: &FileRead, pagesize: i64) -> (r: Result<
        Vec<Metric<Value>>,
        Error,
    >)
        ensures
            metric::outcome(r) == sockstat_collected(
                cfg.proc_path_of("/proc/net/sockstat"@),
                cfg.proc_path_of("/proc/net/sockstat6"@),
                v4@,
                v6@,
                if pagesize <= 0 {
                    DEFAULT_PAGESIZE
                } else {
                    pagesize as u64
                },
            ),
    {
        let first = match v4 {
            FileRead::Contents(raw) => raw,
            _ => {
                return Err(unreadable_error(self.v4_path(cfg).as_str()));
            },
        };
        let second = match v6 {
            FileRead::Contents(raw) => Some(raw.as_str()),
            FileRead::NotFound => None,
            FileRead::Failed => {
                return Err(unreadable_error(self.v6_path(cfg).as_str()));
            },
        };
        parse(first.as_str(), second, pagesize_bytes(pagesize))
    }
}

/// What collecting gives, given what came of reading the two files.
pub open spec fn sockstat_collected(
    v4_path: Seq<char>,
    v6_path: Seq<char>,
    v4: FileView,
    v6: FileView,
    pagesize: u64,
) -> Result<Seq<MetricView<ValueView>>, Seq<char>> {
    match v4 {
        FileView::Contents(first) => match v6 {
            FileView::Contents(second) => sockstat_outcome(first, Some(second), pagesize),
            FileView::NotFound => sockstat_outcome(first, None, pagesize),
            FileView::Failed => Err(source::unreadable(v6_path)),
        },
        _ => Err(source::unreadable(v4_path)),
    }
}

// ------------------------------------------------------------------------ laws

/// The line of a protocol is its name with a colon behind it, then pairs of a key
/// and a number. Each pair has a family of its own, with its own number, and the
/// number of pages (`mem`) has one more, in bytes of whole pages.
pub proof fn every_pair_has_its_family(
    ipv6: bool,
    pagesize: u64,
    i: int,
    line: Seq<char>,
    proto: Seq<char>,
    pairs: Seq<(Seq<char>, Seq<char>)>,
    mem: int,
)
    requires
        text::words(line) == seq![proto + seq![':']] + flattened(pairs),
        proto != "sockets"@,
        pairs.len() > 0,
        forall|k: int| 0 <= k < pairs.len() ==> number::i64_value((#[trigger] pairs[k]).1) is Some,
        mem == pairs.len() || 0 <= mem < pairs.len() && pairs[mem].0 == "mem"@,
        forall|k: int|
            0 <= k < pairs.len() && (k > mem || mem == pairs.len()) ==> (#[trigger] pairs[k]).0
                != "mem"@,
    ensures
        ({
            let row = sockstat_row(ipv6, pagesize, i, line);
            let families = row->Keep_0;
            &&& row is Keep
            &&& families.len() == if mem < pairs.len() {
                pairs.len() + 1
            } else {
                pairs.len()
            }
            &&& forall|k: int|
                #![trigger families[k]]
                0 <= k < pairs.len() ==> {
                    &&& families[k].name == "node_sockstat_"@ + proto + "_"@ + pairs[k].0
                    &&& families[k].mtype == MetricType::Gauge
                    &&& families[k].samples.len() == 1
                    &&& families[k].samples[0].labels.len() == 0
                    &&& quantity::stands_for(
                        families[k].samples[0].value,
                        number::i64_value(pairs[k].1)->0 as int,
                        1,
                    )
                }
            &&& mem < pairs.len() ==> {
                let bytes = families[pairs.len() as int];
                &&& bytes.name == "node_sockstat_"@ + proto + "_mem_bytes"@
                &&& bytes.mtype == MetricType::Gauge
                &&& bytes.samples.len() == 1
                &&& bytes.samples[0].labels.len() == 0
                &&& quantity::stands_for(
                    bytes.samples[0].value,
                    number::i64_value(pairs[mem].1)->0 * pagesize,
                    1,
                )
            }
        }),
{
    let words = text::words(line);
    let kvs = flattened(pairs);
    let n = pairs.len() as int;
    let head = proto + seq![':'];
    assert(words[0] == head);
    assert(words.skip(1) =~= kvs);
    assert(head.drop_last() =~= proto);
    assert(head.last() == ':');
    if line.len() == 0 {
        text::words_are_cut_at_blanks(seq!['x'], ' ', line);
        assert(line =~= seq![]);
    }
    lemma_pairs(proto, pairs, n);
    lemma_pages(pairs, mem, n);
    if mem < n {
        let pages = number::i64_value(pairs[mem].1)->0 as int;
        let bytes = pages * pagesize;
        assert(bytes * 1 == bytes);
    }
}

/// The keys and the values of pairs, one after the other.
pub open spec fn flattened(pairs: Seq<(Seq<char>, Seq<char>)>) -> Seq<Seq<char>> {
    Seq::new(
        2 * pairs.len(),
        |i: int|
            if i % 2 == 0 {
                pairs[i / 2].0
            } else {
                pairs[i / 2].1
            },
    )
}

proof fn lemma_pairs(proto: Seq<char>, pairs: Seq<(Seq<char>, Seq<char>)>, n: int)
    requires
        0 <= n <= pairs.len(),
        forall|k: int| 0 <= k < pairs.len() ==> number::i64_value((#[trigger] pairs[k]).1) is Some,
    ensures
        ({
            let made = pair_metrics(proto, flattened(pairs), n);
            made is Ok && made->Ok_0.len() == n && forall|k: int|
                #![trigger made->Ok_0[k]]
                0 <= k < n ==> pair_metric(proto, pairs[k].0, pairs[k].1) == Ok::<_, Seq<char>>(
                    made->Ok_0[k],
                )
        }),
    decreases n,
{
    if n > 0 {
        lemma_pairs(proto, pairs, n - 1);
        let k = n - 1;
        assert((2 * k) % 2 == 0 && (2 * k) / 2 == k && (2 * k + 1) % 2 == 1 && (2 * k + 1) / 2
            == k);
        assert(number::i64_value(pairs[k].1) is Some);
    }
}

proof fn lemma_pages(pairs: Seq<(Seq<char>, Seq<char>)>, mem: int, n: int)
    requires
        0 <= n <= pairs.len(),
        mem >= pairs.len() || 0 <= mem < n && pairs[mem].0 == "mem"@,
        forall|k: int|
            0 <= k < n && (k > mem || mem >= pairs.len()) ==> (#[trigger] pairs[k]).0 != "mem"@,
    ensures
        mem_pages(flattened(pairs), n) == if mem < pairs.len() {
            number::i64_value(pairs[mem].1)
        } else {
            None
        },
    decreases n,
{
    if n > 0 {
        let k = n - 1;
        assert((2 * k) % 2 == 0 && (2 * k) / 2 == k && (2 * k + 1) % 2 == 1 && (2 * k + 1) / 2
            == k);
        assert(flattened(pairs)[2 * k] == pairs[k].0);
        if k != mem {
            lemma_pages(pairs, mem, n - 1);
        }
    }
}

/// The `sockets` line of the IPv4 file tells the number of sockets in use: what
/// follows its first key `used`. That of the IPv6 file tells nothing.
pub proof fn used_sockets_are_exported(
    pagesize: u64,
    i: int,
    line: Seq<char>,
    pairs: Seq<(Seq<char>, Seq<char>)>,
    used: int,
)
    requires
        text::words(line) == seq!["sockets:"@] + flattened(pairs),
        0 <= used < pairs.len(),
        pairs[used].0 == "used"@,
        forall|k: int| 0 <= k < used ==> (#[trigger] pairs[k]).0 != "used"@,
        number::i64_value(pairs[used].1) is Some,
    ensures
        sockstat_row(true, pagesize, i, line) is Skip,
        ({
            let row = sockstat_row(false, pagesize, i, line);
            let families = row->Keep_0;
            &&& row is Keep
            &&& families.len() == 1
            &&& families[0].name == "node_sockstat_sockets_used"@
            &&& families[0].mtype == MetricType::Gauge
            &&& families[0].samples.len() == 1
            &&& families[0].samples[0].labels.len() == 0
            &&& quantity::stands_for(
                families[0].samples[0].value,
                number::i64_value(pairs[used].1)->0 as int,
                1,
            )
        }),
{
    reveal_strlit("sockets:");
    reveal_strlit("sockets");
    let words = text::words(line);
    let kvs = flattened(pairs);
    assert(words[0] == "sockets:"@);
    assert(words.skip(1) =~= kvs);
    assert("sockets:"@.drop_last() =~= "sockets"@);
    assert("sockets:"@.last() == ':');
    if line.len() == 0 {
        text::words_are_cut_at_blanks(seq!['x'], ' ', line);
        assert(line =~= seq![]);
    }
    lemma_used(pairs, "used"@, used);
}

proof fn lemma_used(pairs: Seq<(Seq<char>, Seq<char>)>, key: Seq<char>, used: int)
    requires
        0 <= used < pairs.len(),
        pairs[used].0 == key,
        forall|k: int| 0 <= k < used ==> (#[trigger] pairs[k]).0 != key,
    ensures
        pair_value(flattened(pairs), key) == Some(pairs[used].1),
    decreases used,
{
    let kvs = flattened(pairs);
    assert(kvs[0] == pairs[0].0 && kvs[1] == pairs[0].1);
    if used > 0 {
        let rest = pairs.skip(1);
        assert forall|k: int| 0 <= k < used - 1 implies (#[trigger] rest[k]).0 != key by {
            assert(rest[k] == pairs[k + 1]);
        }
        lemma_used(rest, key, used - 1);
        assert(kvs.skip(2) =~= flattened(rest)) by {
            assert forall|i: int| 0 <= i < kvs.skip(2).len() implies kvs.skip(2)[i] == flattened(
                rest,
            )[i] by {
                assert((i + 2) / 2 == i / 2 + 1 && (i + 2) % 2 == i % 2);
            }
        }
        assert(pairs[0].0 != key);
    }
}

/// Where a file parses, its families are those of its lines, line after line. The
/// results are the positions of the lines that tell something and what each
/// comes to.
#[verifier::spinoff_prover]
#[verifier::rlimit(60)]
pub proof fn every_line_is_exported(raw: Seq<char>, ipv6: bool, pagesize: u64) -> (r: (
    Seq<int>,
    Seq<Seq<MetricView<ValueView>>>,
))
    requires
        sockstat_rows(raw, ipv6, pagesize) is Ok,
    ensures
        ({
            let lines = text::lines(raw);
            let (at, parts) = r;
            &&& sockstat_rows(raw, ipv6, pagesize)->Ok_0 == rows::joined(parts)
            &&& at.len() == parts.len()
            &&& forall|i: int|
                0 <= i < at.len() ==> 0 <= #[trigger] at[i] < lines.len() && sockstat_row(
                    ipv6,
                    pagesize,
                    at[i],
                    lines[at[i]],
                ) == Row::Keep(parts[i])
            &&& forall|i: int, j: int| 0 <= i < j < at.len() ==> #[trigger] at[i] < #[trigger] at[j]
            &&& forall|k: int|
                #![trigger lines[k]]
                0 <= k < lines.len() ==> (at.contains(k) <==> lines[k].len() > 0 && !(ipv6
                    && text::words(lines[k])[0] == "sockets:"@))
        }),
{
    let lines = text::lines(raw);
    let row = sockstat_row_at(ipv6, pagesize);
    let parts = rows::rows(lines, row)->Ok_0;
    let at = rows::rows_come_of_their_lines(lines, row);
    rows::the_first_fault_fails_the_file(lines, row);
    reveal_strlit("sockets:");
    reveal_strlit("sockets");
    assert("sockets:"@.drop_last() =~= "sockets"@);
    assert forall|i: int| 0 <= i < at.len() implies 0 <= #[trigger] at[i] < lines.len()
        && sockstat_row(ipv6, pagesize, at[i], lines[at[i]]) == Row::Keep(parts[i]) by {
        assert(row(at[i], lines[at[i]]) == Row::Keep(parts[i]));
    }
    assert forall|k: int| #![trigger lines[k]] 0 <= k < lines.len() implies (at.contains(k)
        <==> lines[k].len() > 0 && !(ipv6 && text::words(lines[k])[0] == "sockets:"@)) by {
        assert(!(row(k, lines[k]) is Fail));
        let first = text::words(lines[k])[0];
        if lines[k].len() > 0 && first.drop_last() == "sockets"@ {
            assert(first =~= first.drop_last().push(':'));
            assert(first =~= "sockets:"@);
        }
    }
    (at, parts)
}

/// The families of the two files come one after the other, and a missing second
/// file adds nothing.
pub proof fn both_files_are_exported(v4: Seq<char>, v6: Seq<char>, pagesize: u64)
    ensures
        sockstat_rows(v4, false, pagesize) is Ok && sockstat_rows(v4, false, pagesize)->Ok_0.len()
            > 0 ==> sockstat_outcome(v4, None, pagesize) == sockstat_rows(v4, false, pagesize) && (
        sockstat_rows(v6, true, pagesize) is Ok ==> sockstat_outcome(v4, Some(v6), pagesize)
            == Ok::<_, Seq<char>>(
            rows::joined(
                seq![
                    sockstat_rows(v4, false, pagesize)->Ok_0,
                    sockstat_rows(v6, true, pagesize)->Ok_0,
                ],
            ),
        )),
        sockstat_rows(v4, false, pagesize) is Err ==> sockstat_outcome(v4, Some(v6), pagesize)
            is Err && sockstat_outcome(v4, None, pagesize) is Err,
        sockstat_rows(v6, true, pagesize) is Err ==> sockstat_outcome(v4, Some(v6), pagesize)
            is Err,
{
    let a = sockstat_rows(v4, false, pagesize)->Ok_0;
    let b = sockstat_rows(v6, true, pagesize)->Ok_0;
    assert(seq![a, b].drop_last() =~= seq![a]);
    let none = Seq::<Seq<MetricView<ValueView>>>::empty();
    assert(seq![a].drop_last() =~= none);
    assert(rows::joined(none) =~= seq![]);
    assert(rows::joined(seq![a]) =~= a);
    assert(rows::joined(seq![a, b]) =~= a + b);
    assert(a + Seq::<MetricView<ValueView>>::empty() =~= a);
}

/// Hosts without IPv6 lack the second file, which is no error; that either file
/// cannot be read is one, and so is the lack of the first.
pub proof fn hosts_may_lack_ipv6(
    v4_path: Seq<char>,
    v6_path: Seq<char>,
    raw: Seq<char>,
    v4: FileView,
    v6: FileView,
    pagesize: u64,
)
    ensures
        sockstat_collected(
            v4_path,
            v6_path,
            FileView::Contents(raw),
            FileView::NotFound,
            pagesize,
        ) == sockstat_outcome(raw, None, pagesize),
        v6 is Failed ==> sockstat_collected(v4_path, v6_path, v4, v6, pagesize) is Err,
        !(v4 is Contents) ==> sockstat_collected(v4_path, v6_path, v4, v6, pagesize) is Err,
{
}

/// A line fails the file where its protocol has no colon, where its words behind
/// it are no pairs, and where a value that counts is no number.
pub proof fn faulty_lines_are_errors(
    ipv6: bool,
    pagesize: u64,
    i: int,
    line: Seq<char>,
    proto: Seq<char>,
    pairs: Seq<(Seq<char>, Seq<char>)>,
    k: int,
)
    requires
        line.len() > 0,
    ensures
        text::words(line).len() == 0 ==> sockstat_row(ipv6, pagesize, i, line) is Fail,
        text::words(line).len() > 0 && (text::words(line)[0].len() == 0 || text::words(
            line,
        )[0].last() != ':') ==> sockstat_row(ipv6, pagesize, i, line) is Fail,
        text::words(line).len() == 1 || text::words(line).len() > 0 && text::words(line).len() % 2
            == 0 ==> sockstat_row(ipv6, pagesize, i, line) is Fail,
        text::words(line) == seq![proto + seq![':']] + flattened(pairs) && proto != "sockets"@ && 0
            <= k < pairs.len() && number::i64_value(pairs[k].1) is None ==> sockstat_row(
            ipv6,
            pagesize,
            i,
            line,
        ) is Fail,
{
    let words = text::words(line);
    let kvs = words.skip(1);
    if words == seq![proto + seq![':']] + flattened(pairs) && 0 <= k < pairs.len()
        && number::i64_value(pairs[k].1) is None {
        let head = proto + seq![':'];
        assert(words[0] == head);
        assert(head.drop_last() =~= proto);
        assert(kvs =~= flattened(pairs));
        assert((2 * k) % 2 == 0 && (2 * k) / 2 == k && (2 * k + 1) % 2 == 1 && (2 * k + 1) / 2
            == k);
        lemma_failed_pair(proto, flattened(pairs), k + 1, pairs.len() as int);
    }
}

} // verus!
