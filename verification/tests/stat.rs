use merlion_node_exporter_rs::collectors::stat::{parse, StatCollector};
use merlion_node_exporter_rs::source::FileRead;
use merlion_node_exporter_rs::metric::{Metric, MetricType, Reading, Sample, Scale, Value};
use merlion_node_exporter_rs::Config;

/// The number that a value stands for.
fn number(v: &Value) -> f64 {
    let r = match &v.reading {
        Reading::Unsigned(n) => *n as f64,
        Reading::Signed(n) => *n as f64,
        Reading::Clock { secs, nanos } => *secs as f64 + *nanos as f64 / 1e9,
        Reading::Span {
            seconds,
            nanoseconds,
        } => *seconds as f64 + f64::from(*nanoseconds) / 1e9,
        Reading::Decimal(text) => text.parse().unwrap(),
        Reading::NotANumber => f64::NAN,
        Reading::Infinity => f64::INFINITY,
        Reading::NegativeInfinity => f64::NEG_INFINITY,
    };
    match v.scale {
        Scale::Unit => r,
        Scale::Times(n) => r * n as f64,
        Scale::TimesThousandth => r * 0.001,
        Scale::Over(n) => r / n as f64,
        Scale::OnePlusOver(n) => 1.0 + r / n as f64,
    }
}

/// The families with the numbers that their values stand for.
fn evaluated(metrics: Vec<Metric<Value>>) -> Vec<Metric<f64>> {
    metrics
        .into_iter()
        .map(|m| Metric {
            name: m.name,
            help: m.help,
            mtype: m.mtype,
            samples: m
                .samples
                .into_iter()
                .map(|s| Sample {
                    value: number(&s.value),
                    labels: s.labels,
                })
                .collect(),
        })
        .collect()
}

// Trimmed-down version of the upstream fixture at
// node_exporter/collector/fixtures/proc/stat. Per-CPU rows kept short;
// intr/softirq retain their first-token-is-total shape with a couple of
// per-vector values following.
const FIXTURE: &str = "\
cpu  301854 612 111922 8979004 3552 2 3944 0 44 36
cpu0 44490 19 21045 1087069 220 1 3410 0 2 1
cpu1 47869 23 16474 1110787 591 0 46 0 3 2
intr 8885917 17 0 0 0 0 0 0 0 1 79281
ctxt 38014093
btime 1418183276
processes 26442
procs_running 2
procs_blocked 0
softirq 5057579 250191 1481983 1647 211099 186066 0 1783454 622196 12499 508444
";

fn find<'a>(metrics: &'a [Metric<f64>], name: &str) -> &'a Metric<f64> {
    metrics
        .iter()
        .find(|m| m.name == name)
        .unwrap_or_else(|| panic!("metric {name} not found"))
}

#[test]
fn parses_all_seven_metrics_from_realistic_fixture() {
    let metrics = evaluated(parse(FIXTURE).unwrap());
    assert_eq!(metrics.len(), 7);

    let btime = find(&metrics, "node_boot_time_seconds");
    assert_eq!(btime.mtype, MetricType::Gauge);
    assert!((btime.samples[0].value - 1_418_183_276.0).abs() < f64::EPSILON);

    let intr = find(&metrics, "node_intr_total");
    assert_eq!(intr.mtype, MetricType::Counter);
    // Total only — not the sum of the per-IRQ tail.
    assert!((intr.samples[0].value - 8_885_917.0).abs() < f64::EPSILON);

    let ctxt = find(&metrics, "node_context_switches_total");
    assert_eq!(ctxt.mtype, MetricType::Counter);
    assert!((ctxt.samples[0].value - 38_014_093.0).abs() < f64::EPSILON);

    let forks = find(&metrics, "node_forks_total");
    assert_eq!(forks.mtype, MetricType::Counter);
    // Sourced from the `processes` line.
    assert!((forks.samples[0].value - 26_442.0).abs() < f64::EPSILON);

    let running = find(&metrics, "node_procs_running");
    assert_eq!(running.mtype, MetricType::Gauge);
    assert!((running.samples[0].value - 2.0).abs() < f64::EPSILON);

    let blocked = find(&metrics, "node_procs_blocked");
    assert_eq!(blocked.mtype, MetricType::Gauge);
    assert!(blocked.samples[0].value.abs() < f64::EPSILON);

    let softirq = find(&metrics, "node_softirqs_total");
    assert_eq!(softirq.mtype, MetricType::Counter);
    // Total only — first token after `softirq`.
    assert!((softirq.samples[0].value - 5_057_579.0).abs() < f64::EPSILON);
}

#[test]
fn each_metric_has_exactly_one_sample_with_no_labels() {
    let metrics = evaluated(parse(FIXTURE).unwrap());
    for m in &metrics {
        assert_eq!(m.samples.len(), 1, "{}", m.name);
        assert!(m.samples[0].labels.is_empty(), "{}", m.name);
    }
}

#[test]
fn errors_when_btime_missing() {
    // Strip the btime line from the fixture.
    let raw = FIXTURE
        .lines()
        .filter(|l| !l.starts_with("btime"))
        .collect::<Vec<_>>()
        .join("\n");
    let err = parse(&raw).unwrap_err().message;
    assert!(err.contains("btime"), "{err}");
}

#[test]
fn errors_when_softirq_missing() {
    let raw = FIXTURE
        .lines()
        .filter(|l| !l.starts_with("softirq"))
        .collect::<Vec<_>>()
        .join("\n");
    let err = parse(&raw).unwrap_err().message;
    assert!(err.contains("softirq"), "{err}");
}

#[test]
fn errors_on_non_integer_intr_total() {
    let raw = "\
btime 1
intr banana
ctxt 1
processes 1
procs_running 0
procs_blocked 0
softirq 1
";
    let err = parse(raw).unwrap_err().message;
    assert!(err.contains("parsing intr"), "{err}");
}

#[test]
fn stat_errors_on_empty_input() {
    assert!(parse("").is_err());
}

#[test]
fn ignores_unknown_lines_and_cpu_rows() {
    // Add a hypothetical future keyword; parser must keep working.
    let raw = format!("{FIXTURE}future_key 999 1 2 3\n");
    let metrics = evaluated(parse(&raw).unwrap());
    assert_eq!(metrics.len(), 7);
}

#[test]
fn stat_errors_are_spelled_out() {
    assert_eq!(
        parse("btime\n").unwrap_err().message,
        "stat: missing value for btime"
    );
    assert_eq!(
        parse("softirq x\n").unwrap_err().message,
        "stat: parsing softirq value \"x\""
    );
    assert_eq!(parse("").unwrap_err().message, "stat: missing btime line");
    assert_eq!(
        parse("btime 1\nctxt 1\n").unwrap_err().message,
        "stat: missing intr line"
    );
}

#[test]
fn the_last_line_of_a_keyword_counts() {
    let metrics = evaluated(parse(&format!("{FIXTURE}ctxt 7\n")).unwrap());
    assert_eq!(find(&metrics, "node_context_switches_total").samples[0].value, 7.0);
}

#[test]
fn stat_collector_reads_proc_stat() {
    let cfg = Config::default();
    assert_eq!(StatCollector.name(), "stat");
    assert_eq!(StatCollector.path(&cfg), "/proc/stat");
    let read = FileRead::Contents(FIXTURE.into());
    assert_eq!(StatCollector.collect(&cfg, &read).unwrap().len(), 7);
    let err = StatCollector.collect(&cfg, &FileRead::Failed).unwrap_err();
    assert_eq!(err.message, "reading /proc/stat");
}
