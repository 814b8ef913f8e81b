use merlion_node_exporter_rs::collectors::meminfo::{parse, MeminfoCollector};
use merlion_node_exporter_rs::source::FileRead;
use merlion_node_exporter_rs::metric::{Metric, Reading, Sample, Scale, Value};
use merlion_node_exporter_rs::Config;

/// The number that a value stands for.
fn number(v: &Value) -> f64 {
    let r = match &v.reading {
        Reading::Unsigned(n) => *n as f64,
        Reading::Signed(n) => *n as f64,
        Reading::Clock { secs, nanos } => *secs as f64 + *nanos as f64 / 1e9,
        Reading::Span {
            seconds,
            nanoseconds,
        } => *seconds as f64 + f64::from(*nanoseconds) / 1e9,
        Reading::Decimal(text) => text.parse().unwrap(),
        Reading::NotANumber => f64::NAN,
        Reading::Infinity => f64::INFINITY,
        Reading::NegativeInfinity => f64::NEG_INFINITY,
    };
    match v.scale {
        Scale::Unit => r,
        Scale::Times(n) => r * n as f64,
        Scale::TimesThousandth => r * 0.001,
        Scale::Over(n) => r / n as f64,
        Scale::OnePlusOver(n) => 1.0 + r / n as f64,
    }
}

/// The families with the numbers that their values stand for.
fn evaluated(metrics: Vec<Metric<Value>>) -> Vec<Metric<f64>> {
    metrics
        .into_iter()
        .map(|m| Metric {
            name: m.name,
            help: m.help,
            mtype: m.mtype,
            samples: m
                .samples
                .into_iter()
                .map(|s| Sample {
                    value: number(&s.value),
                    labels: s.labels,
                })
                .collect(),
        })
        .collect()
}

const FIXTURE: &str = "\
MemTotal:       16384000 kB
MemFree:         1024000 kB
HugePages_Total:       0
HugePages_Free:        0
";

#[test]
fn parses_known_keys() {
    let metrics = evaluated(parse(FIXTURE).unwrap());
    let total = metrics
        .iter()
        .find(|m| m.name == "node_memory_MemTotal_bytes")
        .unwrap();
    assert!((total.samples[0].value - 16_384_000.0 * 1024.0).abs() < 1.0);

    let hp = metrics
        .iter()
        .find(|m| m.name == "node_memory_HugePages_Total_total")
        .unwrap();
    assert!(hp.samples[0].value.abs() < f64::EPSILON);
}

#[test]
fn sanitises_unusual_keys() {
    let metrics = evaluated(parse("Some-Weird.Key:    42 kB\n").unwrap());
    assert_eq!(metrics[0].name, "node_memory_Some_Weird_Key_bytes");
}

#[test]
fn errors_on_garbage() {
    assert!(parse("not a meminfo line\n").is_err());
}

#[test]
fn meminfo_errors_are_spelled_out() {
    assert_eq!(
        parse("MemTotal: 1 kB\nMemFree 1 kB\n").unwrap_err().message,
        "meminfo: line 2 missing ':'"
    );
    assert_eq!(
        parse("MemTotal:\n").unwrap_err().message,
        "meminfo: line 1 missing value"
    );
    assert_eq!(
        parse("MemTotal: x kB\n").unwrap_err().message,
        "meminfo: parsing value for MemTotal"
    );
    assert_eq!(
        parse("MemTotal: 1 MB\n").unwrap_err().message,
        "meminfo: unexpected unit \"MB\" for MemTotal"
    );
    assert_eq!(parse("\n\n").unwrap_err().message, "meminfo: no values parsed");
}

#[test]
fn meminfo_collector_reads_proc_meminfo() {
    let cfg = Config::default();
    assert_eq!(MeminfoCollector.name(), "meminfo");
    let read = FileRead::Contents("MemTotal: 2 kB\n".into());
    let metrics = evaluated(MeminfoCollector.collect(&cfg, &read).unwrap());
    assert_eq!(metrics[0].help, "Memory information field MemTotal.");
    assert_eq!(metrics[0].samples[0].value, 2048.0);
    let err = MeminfoCollector
        .collect(&cfg, &FileRead::Failed)
        .unwrap_err();
    assert_eq!(err.message, "reading /proc/meminfo");
}
