use merlion_node_exporter_rs::collectors::cpu::{parse, CpuCollector};
use merlion_node_exporter_rs::source::FileRead;
use merlion_node_exporter_rs::metric::{Metric, MetricType, Reading, Sample, Scale, Value};
use merlion_node_exporter_rs::Config;

/// The number that a value stands for.
fn number(v: &Value) -> f64 {
    let r = match &v.reading {
        Reading::Unsigned(n) => *n as f64,
        Reading::Signed(n) => *n as f64,
        Reading::Clock { secs, nanos } => *secs as f64 + *nanos as f64 / 1e9,
        Reading::Span {
            seconds,
            nanoseconds,
        } => *seconds as f64 + f64::from(*nanoseconds) / 1e9,
        Reading::Decimal(text) => text.parse().unwrap(),
        Reading::NotANumber => f64::NAN,
        Reading::Infinity => f64::INFINITY,
        Reading::NegativeInfinity => f64::NEG_INFINITY,
    };
    match v.scale {
        Scale::Unit => r,
        Scale::Times(n) => r * n as f64,
        Scale::TimesThousandth => r * 0.001,
        Scale::Over(n) => r / n as f64,
        Scale::OnePlusOver(n) => 1.0 + r / n as f64,
    }
}

/// The families with the numbers that their values stand for.
fn evaluated(metrics: Vec<Metric<Value>>) -> Vec<Metric<f64>> {
    metrics
        .into_iter()
        .map(|m| Metric {
            name: m.name,
            help: m.help,
            mtype: m.mtype,
            samples: m
                .samples
                .into_iter()
                .map(|s| Sample {
                    value: number(&s.value),
                    labels: s.labels,
                })
                .collect(),
        })
        .collect()
}

const FIXTURE_WITH_GUEST: &str = "\
cpu  100 200 300 400 500 600 700 800 900 1000
cpu0 10 20 30 40 50 60 70 80 90 100
cpu1 11 21 31 41 51 61 71 81 91 101
intr 12345 0 0
ctxt 67890
btime 1700000000
processes 42
procs_running 1
procs_blocked 0
softirq 99 0 0
";

const FIXTURE_LEGACY_NO_GUEST: &str = "\
cpu  100 200 300 400 500 600 700 800
cpu0 10 20 30 40 50 60 70 80
";

#[test]
fn parses_with_guest_fields() {
    let metrics = evaluated(parse(FIXTURE_WITH_GUEST).unwrap());
    assert_eq!(metrics.len(), 2, "main + guest");

    let main = &metrics[0];
    assert_eq!(main.name, "node_cpu_seconds_total");
    assert_eq!(main.mtype, MetricType::Counter);
    // 2 CPUs × 8 modes.
    assert_eq!(main.samples.len(), 16);

    // First per-CPU sample: cpu0 user = 10 / 100 = 0.1.
    let s = &main.samples[0];
    assert_eq!(s.labels[0], ("cpu".to_string(), "0".to_string()));
    assert_eq!(s.labels[1], ("mode".to_string(), "user".to_string()));
    assert!((s.value - 0.1).abs() < 1e-9);

    // cpu1 steal = 81 / 100 = 0.81. Index: cpu1's 8th mode = sample 15.
    let steal = &main.samples[15];
    assert_eq!(steal.labels[0].1, "1");
    assert_eq!(steal.labels[1].1, "steal");
    assert!((steal.value - 0.81).abs() < 1e-9);

    // Guest metric: 2 CPUs × 2 modes.
    let guest = &metrics[1];
    assert_eq!(guest.name, "node_cpu_guest_seconds_total");
    assert_eq!(guest.samples.len(), 4);
    // cpu0 guest user = position 8 = 90 / 100 = 0.9.
    let gs = &guest.samples[0];
    assert_eq!(gs.labels[0].1, "0");
    assert_eq!(gs.labels[1].1, "user");
    assert!((gs.value - 0.9).abs() < 1e-9);
}

#[test]
fn skips_aggregate_cpu_row() {
    let metrics = evaluated(parse(FIXTURE_WITH_GUEST).unwrap());
    let main = &metrics[0];
    // Aggregate "cpu " row must NOT appear — only cpu0 and cpu1. No
    // sample should have cpu="cpu" or empty.
    for s in &main.samples {
        assert!(s.labels[0].1 == "0" || s.labels[0].1 == "1");
    }
}

#[test]
fn omits_guest_metric_when_fields_absent() {
    let metrics = evaluated(parse(FIXTURE_LEGACY_NO_GUEST).unwrap());
    assert_eq!(metrics.len(), 1, "no guest metric on legacy kernel");
    assert_eq!(metrics[0].name, "node_cpu_seconds_total");
    assert_eq!(metrics[0].samples.len(), 8); // 1 CPU × 8 modes
}

#[test]
fn rejects_input_with_no_cpu_rows() {
    let err = parse("intr 0\nctxt 0\n").unwrap_err().message;
    assert!(err.contains("no per-CPU rows"), "{err}");
}

#[test]
fn rejects_truncated_cpu_row() {
    // cpu0 with only 5 fields — fewer than the 8 main modes.
    let err = parse("cpu0 1 2 3 4 5\n").unwrap_err().message;
    assert!(err.contains("need at least"), "{err}");
}

#[test]
fn cpu_rejects_non_integer_field() {
    let err = parse("cpu0 1 2 banana 4 5 6 7 8\n").unwrap_err().message;
    assert!(err.contains("parsing field"), "{err}");
}

#[test]
fn ignores_non_cpu_lines() {
    let raw = "\
btime 1700000000
cpu0 10 20 30 40 50 60 70 80
weird-line-just-for-fun
intr 12 0 0
";
    let metrics = evaluated(parse(raw).unwrap());
    assert_eq!(metrics[0].samples.len(), 8);
}

#[test]
fn cpu_errors_are_spelled_out() {
    assert_eq!(
        parse("cpu3 1 2 x 4 5 6 7 8\n").unwrap_err().message,
        "cpu: parsing field 2 for cpu3"
    );
    assert_eq!(
        parse("cpu0 1 2 3 4 5\n").unwrap_err().message,
        "cpu: cpu0 has 5 fields, need at least 8"
    );
    assert_eq!(
        parse("ctxt 1\n").unwrap_err().message,
        "cpu: no per-CPU rows in /proc/stat"
    );
}

#[test]
fn cpu_reads_at_most_ten_fields() {
    let metrics = evaluated(parse("cpu0 1 2 3 4 5 6 7 8 9 10 x y\n").unwrap());
    assert_eq!(metrics.len(), 2);
    assert_eq!(metrics[1].samples.len(), 2);
    assert_eq!(metrics[1].samples[1].value, 10.0 / 100.0);
}

#[test]
fn cpu_collector_reads_proc_stat() {
    let cfg = Config::new("/host/proc".into(), "/sys".into(), "/".into());
    assert_eq!(CpuCollector.name(), "cpu");
    assert_eq!(CpuCollector.path(&cfg), "/host/proc/stat");
    let err = CpuCollector.collect(&cfg, &FileRead::NotFound).unwrap_err();
    assert_eq!(err.message, "reading /host/proc/stat");
    let read = FileRead::Contents("cpu0 1 2 3 4 5 6 7 8\n".into());
    assert_eq!(CpuCollector.collect(&cfg, &read).unwrap().len(), 1);
}
