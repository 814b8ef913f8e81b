use merlion_node_exporter_rs::collectors::pressure::{parse, stalled_metric, waiting_metric, PressureCollector};
use merlion_node_exporter_rs::source::FileRead;
use merlion_node_exporter_rs::metric::{Metric, MetricType, Reading, Sample, Scale, Value};
use merlion_node_exporter_rs::Config;

/// The number that a value stands for.
fn number(v: &Value) -> f64 {
    let r = match &v.reading {
        Reading::Unsigned(n) => *n as f64,
        Reading::Signed(n) => *n as f64,
        Reading::Clock { secs, nanos } => *secs as f64 + *nanos as f64 / 1e9,
        Reading::Span {
            seconds,
            nanoseconds,
        } => *seconds as f64 + f64::from(*nanoseconds) / 1e9,
        Reading::Decimal(text) => text.parse().unwrap(),
        Reading::NotANumber => f64::NAN,
        Reading::Infinity => f64::INFINITY,
        Reading::NegativeInfinity => f64::NEG_INFINITY,
    };
    match v.scale {
        Scale::Unit => r,
        Scale::Times(n) => r * n as f64,
        Scale::TimesThousandth => r * 0.001,
        Scale::Over(n) => r / n as f64,
        Scale::OnePlusOver(n) => 1.0 + r / n as f64,
    }
}

/// The families with the numbers that their values stand for.
fn evaluated(metrics: Vec<Metric<Value>>) -> Vec<Metric<f64>> {
    metrics
        .into_iter()
        .map(|m| Metric {
            name: m.name,
            help: m.help,
            mtype: m.mtype,
            samples: m
                .samples
                .into_iter()
                .map(|s| Sample {
                    value: number(&s.value),
                    labels: s.labels,
                })
                .collect(),
        })
        .collect()
}

const CPU_FIXTURE: &str = "\
some avg10=0.00 avg60=0.00 avg300=0.00 total=123456789
";

const MEMORY_FIXTURE: &str = "\
some avg10=0.10 avg60=0.20 avg300=0.30 total=2000000
full avg10=0.05 avg60=0.10 avg300=0.15 total=1000000
";

const IO_FIXTURE: &str = "\
some avg10=1.00 avg60=2.00 avg300=3.00 total=5000000
full avg10=0.50 avg60=1.00 avg300=1.50 total=2500000
";

#[test]
fn parses_cpu_some_only() {
    let (some, full) = parse(CPU_FIXTURE).unwrap();
    assert_eq!(some, 123_456_789);
    assert!(full.is_none(), "cpu has no full line");
}

#[test]
fn parses_memory_some_and_full() {
    let (some, full) = parse(MEMORY_FIXTURE).unwrap();
    assert_eq!(some, 2_000_000);
    assert_eq!(full, Some(1_000_000));
}

#[test]
fn parses_io_some_and_full() {
    let (some, full) = parse(IO_FIXTURE).unwrap();
    assert_eq!(some, 5_000_000);
    assert_eq!(full, Some(2_500_000));
}

#[test]
fn rejects_missing_some_line() {
    // full-only — invalid; PSI always reports `some` when `full` is present.
    let raw = "full avg10=0.00 avg60=0.00 avg300=0.00 total=42\n";
    let err = parse(raw).unwrap_err().message;
    assert!(err.contains("missing 'some'"), "{err}");
}

#[test]
fn rejects_missing_total_field() {
    let raw = "some avg10=0.00 avg60=0.00 avg300=0.00\n";
    let err = parse(raw).unwrap_err().message;
    assert!(err.contains("missing total="), "{err}");
}

#[test]
fn rejects_unknown_line_kind() {
    let raw = "weird avg10=0.00 total=1\n";
    let err = parse(raw).unwrap_err().message;
    assert!(err.contains("unknown line kind"), "{err}");
}

#[test]
fn rejects_unparseable_total() {
    let raw = "some avg10=0.00 avg60=0.00 avg300=0.00 total=banana\n";
    let err = parse(raw).unwrap_err().message;
    assert!(err.contains("parsing total="), "{err}");
}

#[test]
fn microseconds_convert_to_seconds() {
    // 2_500_000 µs == 2.5 s. Exercise the actual metric builder so a
    // future refactor of the conversion factor can't silently drift.
    let m = evaluated(vec![waiting_metric("io", 2_500_000)]).remove(0);
    assert_eq!(m.name, "node_pressure_io_waiting_seconds_total");
    assert_eq!(m.mtype, MetricType::Counter);
    assert!((m.samples[0].value - 2.5).abs() < 1e-9);

    let s = evaluated(vec![stalled_metric("memory", 1_000_000)]).remove(0);
    assert_eq!(s.name, "node_pressure_memory_stalled_seconds_total");
    assert!((s.samples[0].value - 1.0).abs() < 1e-9);
}

#[test]
fn collect_against_fixture_tree() {
    // All three files are there: 5 metrics (cpu waiting; io waiting +
    // stalled; memory waiting + stalled), in that order.
    let cfg = Config::new("/fixture".into(), "/sys".into(), "/".into());
    assert_eq!(PressureCollector.cpu_path(&cfg), "/fixture/pressure/cpu");
    assert_eq!(PressureCollector.io_path(&cfg), "/fixture/pressure/io");
    assert_eq!(PressureCollector.memory_path(&cfg), "/fixture/pressure/memory");
    let metrics = evaluated(
        PressureCollector
            .collect(
                &cfg,
                &FileRead::Contents(CPU_FIXTURE.into()),
                &FileRead::Contents(IO_FIXTURE.into()),
                &FileRead::Contents(MEMORY_FIXTURE.into()),
            )
            .unwrap(),
    );

    let names: Vec<_> = metrics.iter().map(|m| m.name.as_str()).collect();
    assert_eq!(
        names,
        vec![
            "node_pressure_cpu_waiting_seconds_total",
            "node_pressure_io_waiting_seconds_total",
            "node_pressure_io_stalled_seconds_total",
            "node_pressure_memory_waiting_seconds_total",
            "node_pressure_memory_stalled_seconds_total",
        ]
    );

    // cpu waiting = 123_456_789 µs ≈ 123.456789 s
    assert!((metrics[0].samples[0].value - 123.456_789).abs() < 1e-6);
}

#[test]
fn collect_tolerates_missing_resource_files() {
    // Only cpu present: just the cpu waiting metric.
    let cfg = Config::new("/fixture".into(), "/sys".into(), "/".into());
    let metrics = PressureCollector
        .collect(
            &cfg,
            &FileRead::Contents(CPU_FIXTURE.into()),
            &FileRead::NotFound,
            &FileRead::NotFound,
        )
        .unwrap();

    assert_eq!(metrics.len(), 1);
    assert_eq!(metrics[0].name, "node_pressure_cpu_waiting_seconds_total");
}

#[test]
fn collect_errors_when_no_files_present() {
    // PSI not available on this kernel.
    let cfg = Config::new("/fixture".into(), "/sys".into(), "/".into());
    let err = PressureCollector
        .collect(
            &cfg,
            &FileRead::NotFound,
            &FileRead::NotFound,
            &FileRead::NotFound,
        )
        .unwrap_err()
        .message;
    assert!(err.contains("no /proc/pressure/* files"), "{err}");
}

#[test]
fn pressure_errors_are_spelled_out() {
    assert_eq!(
        parse("some total=x\n").unwrap_err().message,
        "pressure: parsing total= on some line"
    );
    assert_eq!(
        parse("some total=1\nfull avg10=0\n").unwrap_err().message,
        "pressure: missing total= on full line"
    );
    assert_eq!(
        parse("odd total=1\n").unwrap_err().message,
        "pressure: unknown line kind \"odd\""
    );
    assert_eq!(parse("").unwrap_err().message, "pressure: missing 'some' line");
    let cfg = Config::default();
    let message = |cpu: &FileRead, io: &FileRead| {
        PressureCollector
            .collect(&cfg, cpu, io, &FileRead::NotFound)
            .unwrap_err()
            .message
    };
    let cpu = FileRead::Contents(CPU_FIXTURE.into());
    assert_eq!(
        message(&FileRead::Failed, &FileRead::NotFound),
        "reading /proc/pressure/cpu"
    );
    assert_eq!(
        message(&FileRead::Contents(String::new()), &FileRead::NotFound),
        "parsing /proc/pressure/cpu: pressure: missing 'some' line"
    );
    assert_eq!(
        message(&cpu, &FileRead::Contents(CPU_FIXTURE.into())),
        "pressure: /proc/pressure/io missing required 'full' line"
    );
}

#[test]
fn the_last_line_of_a_kind_counts() {
    assert_eq!(parse("some total=1\nsome total=2\n").unwrap(), (2, None));
}

#[test]
fn pressure_help_texts() {
    assert_eq!(
        waiting_metric("cpu", 1).help,
        "Total time in seconds that processes have waited for CPU time"
    );
    assert_eq!(
        stalled_metric("memory", 1).help,
        "Total time in seconds no process could make progress due to memory congestion"
    );
    assert_eq!(PressureCollector.name(), "pressure");
}
