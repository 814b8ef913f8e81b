use merlion_node_exporter_rs::collectors::uname::{UnameCollector, UnameInfo};
use merlion_node_exporter_rs::metric::{Reading, Scale, Value};

/// The number that a value stands for.
fn number(v: &Value) -> f64 {
    let r = match &v.reading {
        Reading::Unsigned(n) => *n as f64,
        Reading::Signed(n) => *n as f64,
        Reading::Clock { secs, nanos } => *secs as f64 + *nanos as f64 / 1e9,
        Reading::Span {
            seconds,
            nanoseconds,
        } => *seconds as f64 + f64::from(*nanoseconds) / 1e9,
        Reading::Decimal(text) => text.parse().unwrap(),
        Reading::NotANumber => f64::NAN,
        Reading::Infinity => f64::INFINITY,
        Reading::NegativeInfinity => f64::NEG_INFINITY,
    };
    match v.scale {
        Scale::Unit => r,
        Scale::Times(n) => r * n as f64,
        Scale::TimesThousandth => r * 0.001,
        Scale::Over(n) => r / n as f64,
        Scale::OnePlusOver(n) => 1.0 + r / n as f64,
    }
}

fn info() -> UnameInfo {
    UnameInfo {
        sysname: "Linux".into(),
        nodename: "host".into(),
        release: "6.1.0".into(),
        version: "#1 SMP".into(),
        machine: "x86_64".into(),
        domainname: "(none)".into(),
    }
}

#[test]
fn collect_returns_one_info_metric() {
    let metrics = UnameCollector.collect(&Some(info())).unwrap();
    assert_eq!(metrics.len(), 1);
    let m = &metrics[0];
    assert_eq!(m.name, "node_uname_info");
    assert_eq!(m.samples.len(), 1);
    assert!((number(&m.samples[0].value) - 1.0).abs() < f64::EPSILON);
    let label_names: Vec<&str> = m.samples[0]
        .labels
        .iter()
        .map(|(k, _)| k.as_str())
        .collect();
    assert!(label_names.contains(&"sysname"));
    assert!(label_names.contains(&"machine"));
}

#[test]
fn labels_come_in_a_fixed_order() {
    let metrics = UnameCollector.collect(&Some(info())).unwrap();
    let labels: Vec<(&str, &str)> = metrics[0].samples[0]
        .labels
        .iter()
        .map(|(k, v)| (k.as_str(), v.as_str()))
        .collect();
    assert_eq!(
        labels,
        vec![
            ("sysname", "Linux"),
            ("release", "6.1.0"),
            ("version", "#1 SMP"),
            ("machine", "x86_64"),
            ("nodename", "host"),
            ("domainname", "(none)"),
        ]
    );
}

#[test]
fn a_failed_system_call_is_an_error() {
    let err = UnameCollector.collect(&None).unwrap_err();
    assert_eq!(err.message, "uname syscall failed");
    assert_eq!(UnameCollector.name(), "uname");
}
