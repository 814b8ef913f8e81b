use merlion_node_exporter_rs::collectors::vmstat::{parse, VmstatCollector};
use merlion_node_exporter_rs::source::FileRead;
use merlion_node_exporter_rs::metric::{Metric, MetricType, Reading, Sample, Scale, Value};
use merlion_node_exporter_rs::Config;

/// The number that a value stands for.
fn number(v: &Value) -> f64 {
    let r = match &v.reading {
        Reading::Unsigned(n) => *n as f64,
        Reading::Signed(n) => *n as f64,
        Reading::Clock { secs, nanos } => *secs as f64 + *nanos as f64 / 1e9,
        Reading::Span {
            seconds,
            nanoseconds,
        } => *seconds as f64 + f64::from(*nanoseconds) / 1e9,
        Reading::Decimal(text) => text.parse().unwrap(),
        Reading::NotANumber => f64::NAN,
        Reading::Infinity => f64::INFINITY,
        Reading::NegativeInfinity => f64::NEG_INFINITY,
    };
    match v.scale {
        Scale::Unit => r,
        Scale::Times(n) => r * n as f64,
        Scale::TimesThousandth => r * 0.001,
        Scale::Over(n) => r / n as f64,
        Scale::OnePlusOver(n) => 1.0 + r / n as f64,
    }
}

/// The families with the numbers that their values stand for.
fn evaluated(metrics: Vec<Metric<Value>>) -> Vec<Metric<f64>> {
    metrics
        .into_iter()
        .map(|m| Metric {
            name: m.name,
            help: m.help,
            mtype: m.mtype,
            samples: m
                .samples
                .into_iter()
                .map(|s| Sample {
                    value: number(&s.value),
                    labels: s.labels,
                })
                .collect(),
        })
        .collect()
}

const FIXTURE: &str = "\
nr_free_pages 12345
nr_zone_inactive_anon 678
nr_dirty 9
pgpgin 100000
pgpgout 200000
pgfault 67890
pgmajfault 42
oom_kill 1
";

#[test]
fn parses_counter_and_gauge_fields() {
    let metrics = evaluated(parse(FIXTURE).unwrap());
    assert_eq!(metrics.len(), 8);

    let free = metrics
        .iter()
        .find(|m| m.name == "node_vmstat_nr_free_pages")
        .unwrap();
    assert_eq!(free.mtype, MetricType::Gauge);
    assert_eq!(free.help, "/proc/vmstat information field nr_free_pages.");
    assert!((free.samples[0].value - 12345.0).abs() < f64::EPSILON);

    let dirty = metrics
        .iter()
        .find(|m| m.name == "node_vmstat_nr_dirty")
        .unwrap();
    assert_eq!(dirty.mtype, MetricType::Gauge);

    let pgfault = metrics
        .iter()
        .find(|m| m.name == "node_vmstat_pgfault")
        .unwrap();
    assert_eq!(pgfault.mtype, MetricType::Counter);
    assert_eq!(pgfault.help, "/proc/vmstat information field pgfault.");
    assert!((pgfault.samples[0].value - 67890.0).abs() < f64::EPSILON);

    let oom = metrics
        .iter()
        .find(|m| m.name == "node_vmstat_oom_kill")
        .unwrap();
    assert_eq!(oom.mtype, MetricType::Counter);
    assert!((oom.samples[0].value - 1.0).abs() < f64::EPSILON);
}

#[test]
fn vmstat_skips_blank_lines() {
    let raw = "\npgfault 1\n\nnr_free_pages 2\n";
    let metrics = evaluated(parse(raw).unwrap());
    assert_eq!(metrics.len(), 2);
}

#[test]
fn vmstat_rejects_non_integer_value() {
    let err = parse("pgfault banana\n").unwrap_err().message;
    assert!(err.contains("parsing value for pgfault"), "{err}");
}

#[test]
fn rejects_line_missing_value() {
    let err = parse("pgfault\n").unwrap_err().message;
    assert!(err.contains("missing value"), "{err}");
}

#[test]
fn vmstat_rejects_empty_input() {
    let err = parse("").unwrap_err().message;
    assert!(err.contains("no values parsed"), "{err}");
}

#[test]
fn vmstat_errors_are_spelled_out() {
    assert_eq!(
        parse("pgfault 1\n \n").unwrap_err().message,
        "vmstat: line 2 missing key"
    );
    assert_eq!(
        parse("pgfault\n").unwrap_err().message,
        "vmstat: line 1 missing value for pgfault"
    );
    assert_eq!(
        parse("pgfault -1\n").unwrap_err().message,
        "vmstat: parsing value for pgfault"
    );
}

#[test]
fn vmstat_collector_reads_proc_vmstat() {
    let cfg = Config::default();
    assert_eq!(VmstatCollector.name(), "vmstat");
    assert_eq!(VmstatCollector.path(&cfg), "/proc/vmstat");
    let read = FileRead::Contents(FIXTURE.into());
    assert_eq!(VmstatCollector.collect(&cfg, &read).unwrap().len(), 8);
    let err = VmstatCollector.collect(&cfg, &FileRead::NotFound).unwrap_err();
    assert_eq!(err.message, "reading /proc/vmstat");
}
