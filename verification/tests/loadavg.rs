use merlion_node_exporter_rs::collectors::loadavg::{parse, LoadavgCollector};
use merlion_node_exporter_rs::source::FileRead;
use merlion_node_exporter_rs::metric::{Metric, Reading, Sample, Scale, Value};
use merlion_node_exporter_rs::Config;

/// The number that a value stands for.
fn number(v: &Value) -> f64 {
    let r = match &v.reading {
        Reading::Unsigned(n) => *n as f64,
        Reading::Signed(n) => *n as f64,
        Reading::Clock { secs, nanos } => *secs as f64 + *nanos as f64 / 1e9,
        Reading::Span {
            seconds,
            nanoseconds,
        } => *seconds as f64 + f64::from(*nanoseconds) / 1e9,
        Reading::Decimal(text) => text.parse().unwrap(),
        Reading::NotANumber => f64::NAN,
        Reading::Infinity => f64::INFINITY,
        Reading::NegativeInfinity => f64::NEG_INFINITY,
    };
    match v.scale {
        Scale::Unit => r,
        Scale::Times(n) => r * n as f64,
        Scale::TimesThousandth => r * 0.001,
        Scale::Over(n) => r / n as f64,
        Scale::OnePlusOver(n) => 1.0 + r / n as f64,
    }
}

/// The families with the numbers that their values stand for.
fn evaluated(metrics: Vec<Metric<Value>>) -> Vec<Metric<f64>> {
    metrics
        .into_iter()
        .map(|m| Metric {
            name: m.name,
            help: m.help,
            mtype: m.mtype,
            samples: m
                .samples
                .into_iter()
                .map(|s| Sample {
                    value: number(&s.value),
                    labels: s.labels,
                })
                .collect(),
        })
        .collect()
}

#[test]
fn parses_typical_loadavg() {
    let raw = "0.34 0.40 0.41 1/1024 12345\n";
    let metrics = evaluated(parse(raw).unwrap());
    assert_eq!(metrics.len(), 3);
    assert_eq!(metrics[0].name, "node_load1");
    assert!((metrics[0].samples[0].value - 0.34).abs() < 1e-9);
    assert!((metrics[2].samples[0].value - 0.41).abs() < 1e-9);
}

#[test]
fn loadavg_errors_on_empty_input() {
    assert!(parse("").is_err());
}

#[test]
fn errors_on_truncated_input() {
    assert!(parse("0.1 0.2\n").is_err());
}

#[test]
fn loadavg_errors_are_spelled_out() {
    assert_eq!(parse("").unwrap_err().message, "loadavg: empty file");
    assert_eq!(
        parse("0.1 0.2\n").unwrap_err().message,
        "loadavg: missing field load15"
    );
    assert_eq!(
        parse("0.1 x 0.3\n").unwrap_err().message,
        "loadavg: parsing load5"
    );
    assert_eq!(
        parse("\n0.1 0.2 0.3\n").unwrap_err().message,
        "loadavg: missing field load1"
    );
}

#[test]
fn loadavg_collector_reads_proc_loadavg() {
    let cfg = Config::default();
    assert_eq!(LoadavgCollector.name(), "loadavg");
    let read = FileRead::Contents("1 2 3 4/5 6".into());
    let metrics = evaluated(LoadavgCollector.collect(&cfg, &read).unwrap());
    assert_eq!(metrics[1].name, "node_load5");
    assert_eq!(metrics[1].help, "5m load average.");
    assert_eq!(metrics[1].samples[0].value, 2.0);
    let err = LoadavgCollector
        .collect(&cfg, &FileRead::NotFound)
        .unwrap_err();
    assert_eq!(err.message, "reading /proc/loadavg");
}
