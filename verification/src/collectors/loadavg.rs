//! `/proc/loadavg`: 1/5/15 minute load averages.

use vstd::prelude::*;

use crate::config::Config;
use crate::error::Error;
use crate::metric;
use crate::metric::{Metric, MetricType, MetricView, Value, ValueView};
use crate::number;
use crate::number::float_literal;
use crate::quantity;
use crate::source;
use crate::source::{unreadable_error, FileRead, FileView};
use crate::text;
use crate::text::{chars_of, lines_of, string_of, words_of};

verus! {

/// The word at position `i` of the first line, which must be a number.
pub open spec fn load_field(words: Seq<Seq<char>>, i: int, name: Seq<char>) -> Result<
    ValueView,
    Seq<char>,
> {
    if words.len() <= i {
        Err("loadavg: missing field "@ + name)
    } else if number::is_float(words[i]) {
        Ok(ValueView::decimal(words[i]))
    } else {
        Err("loadavg: parsing "@ + name)
    }
}

/// What the first line comes to.
pub open spec fn load_metrics(words: Seq<Seq<char>>) -> Result<
    Seq<MetricView<ValueView>>,
    Seq<char>,
> {
    match load_field(words, 0, "load1"@) {
        Err(m) => Err(m),
        Ok(one) => match load_field(words, 1, "load5"@) {
            Err(m) => Err(m),
            Ok(five) => match load_field(words, 2, "load15"@) {
                Err(m) => Err(m),
                Ok(fifteen) => Ok(
                    seq![
                        MetricView::single(
                            "node_load1"@,
                            "1m load average."@,
                            MetricType::Gauge,
                            one,
                        ),
                        MetricView::single(
                            "node_load5"@,
                            "5m load average."@,
                            MetricType::Gauge,
                            five,
                        ),
                        MetricView::single(
                            "node_load15"@,
                            "15m load average."@,
                            MetricType::Gauge,
                            fifteen,
                        ),
                    ],
                ),
            },
        },
    }
}

/// What `/proc/loadavg` comes to.
pub open spec fn load_outcome(raw: Seq<char>) -> Result<Seq<MetricView<ValueView>>, Seq<char>> {
    if text::lines(raw).len() == 0 {
        Err("loadavg: empty file"@)
    } else {
        load_metrics(text::words(text::lines(raw)[0]))
    }
}

fn field(words: &Vec<&[char]>, i: usize, name: &str) -> (r: Result<Value, Error>)
    ensures
        match r {
            Ok(v) => load_field(text::views(words@), i as int, name@) == Ok::<_, Seq<char>>(v@),
            Err(e) => load_field(text::views(words@), i as int, name@) == Err::<ValueView, _>(e@),
        },
{
    assert(text::views(words@).len() == words@.len());
    if words.len() <= i {
        let mut m = "loadavg: missing field ".to_owned();
        m.push_str(name);
        return Err(Error::new(m));
    }
    assert(text::views(words@)[i as int] == words@[i as int]@);
    if float_literal(words[i]) {
        Ok(Value::decimal(string_of(words[i])))
    } else {
        let mut m = "loadavg: parsing ".to_owned();
        m.push_str(name);
        Err(Error::new(m))
    }
}

/// Parses `/proc/loadavg`.
pub fn parse(raw: &str) -> (r: Result<Vec<Metric<Value>>, Error>)
    ensures
        metric::outcome(r) == load_outcome(raw@),
{
    let chars = chars_of(raw);
    let lines = lines_of(chars.as_slice());
    assert(text::views(lines@).len() == lines@.len());
    if lines.len() == 0 {
        return Err(Error::new("loadavg: empty file".to_owned()));
    }
    assert(text::views(lines@)[0] == lines@[0]@);
    let words = words_of(lines[0]);
    let one = match field(&words, 0, "load1") {
        Ok(v) => v,
        Err(e) => {
            return Err(e);
        },
    };
    let five = match field(&words, 1, "load5") {
        Ok(v) => v,
        Err(e) => {
            return Err(e);
        },
    };
    let fifteen = match field(&words, 2, "load15") {
        Ok(v) => v,
        Err(e) => {
            return Err(e);
        },
    };
    let out = vec![
        Metric::single("node_load1", "1m load average.", MetricType::Gauge, one),
        Metric::single("node_load5", "5m load average.", MetricType::Gauge, five),
        Metric::single("node_load15", "15m load average.", MetricType::Gauge, fifteen),
    ];
    assert(metric::metric_views(out@) =~= load_metrics(text::views(words@))->Ok_0);
    Ok(out)
}

pub struct LoadavgCollector;

impl LoadavgCollector {
    pub fn name(&self) -> (r: &'static str)
        ensures
            r@ == "loadavg"@,
    {
        "loadavg"
    }

    /// The file that the collector reads.
    pub fn path(&self, cfg: &Config) -> (r: String)
        ensures
            r@ == cfg.proc_path_of("/proc/loadavg"@),
    {
        cfg.proc_path("/proc/loadavg")
    }

    /// The metrics, given what came of reading the file.
    pub fn collect(&self, cfg: &Config, read: &FileRead) -> (r: Result<Vec<Metric<Value>>, Error>)
        ensures
            metric::outcome(r) == match read@ {
                FileView::Contents(raw) => load_outcome(raw),
                _ => Err(source::unreadable(cfg.proc_path_of("/proc/loadavg"@))),
            },
    {
        match read {
            FileRead::Contents(raw) => parse(raw.as_str()),
            _ => Err(unreadable_error(self.path(cfg).as_str())),
        }
    }
}

// ------------------------------------------------------------------------ laws

/// The three averages are the first three words of the first line, each in a
/// family of its own and as it is spelled. `/proc/loadavg` parses where those are
/// numbers, and only there.
pub proof fn every_average_has_its_family(raw: Seq<char>)
    ensures
        ({
            let lines = text::lines(raw);
            let words = text::words(lines[0]);
            let families = load_outcome(raw)->Ok_0;
            &&& load_outcome(raw) is Ok <==> lines.len() > 0 && words.len() >= 3
                && number::is_float(words[0]) && number::is_float(words[1]) && number::is_float(
                words[2],
            )
            &&& load_outcome(raw) is Ok ==> {
                &&& families.len() == 3
                &&& families[0].name == "node_load1"@
                &&& families[1].name == "node_load5"@
                &&& families[2].name == "node_load15"@
                &&& forall|i: int|
                    0 <= i < 3 ==> {
                        &&& (#[trigger] families[i]).mtype == MetricType::Gauge
                        &&& families[i].samples.len() == 1
                        &&& families[i].samples[0].labels.len() == 0
                        &&& quantity::spells_times(families[i].samples[0].value, words[i], 1, 1)
                    }
            }
        }),
{
    let words = text::words(text::lines(raw)[0]);
    quantity::literals_are_scaled(words[0], metric::Scale::Unit);
    quantity::literals_are_scaled(words[1], metric::Scale::Unit);
    quantity::literals_are_scaled(words[2], metric::Scale::Unit);
}

} // verus!
