use merlion_node_exporter_rs::collectors::thermal_zone::{
    collect_from, parse_cooling_device, parse_zone, ThermalEntry, ThermalZoneCollector,
};
use merlion_node_exporter_rs::metric::{Metric, MetricType, Reading, Sample, Scale, Value};
use merlion_node_exporter_rs::source::Listing;
use merlion_node_exporter_rs::Config;

/// The number that a value stands for.
fn number(v: &Value) -> f64 {
    let r = match &v.reading {
        Reading::Unsigned(n) => *n as f64,
        Reading::Signed(n) => *n as f64,
        Reading::Clock { secs, nanos } => *secs as f64 + *nanos as f64 / 1e9,
        Reading::Span {
            seconds,
            nanoseconds,
        } => *seconds as f64 + f64::from(*nanoseconds) / 1e9,
        Reading::Decimal(text) => text.parse().unwrap(),
        Reading::NotANumber => f64::NAN,
        Reading::Infinity => f64::INFINITY,
        Reading::NegativeInfinity => f64::NEG_INFINITY,
    };
    match v.scale {
        Scale::Unit => r,
        Scale::Times(n) => r * n as f64,
        Scale::TimesThousandth => r * 0.001,
        Scale::Over(n) => r / n as f64,
        Scale::OnePlusOver(n) => 1.0 + r / n as f64,
    }
}

/// The families with the numbers that their values stand for.
fn evaluated(metrics: Vec<Metric<Value>>) -> Vec<Metric<f64>> {
    metrics
        .into_iter()
        .map(|m| Metric {
            name: m.name,
            help: m.help,
            mtype: m.mtype,
            samples: m
                .samples
                .into_iter()
                .map(|s| Sample {
                    value: number(&s.value),
                    labels: s.labels,
                })
                .collect(),
        })
        .collect()
}

/// An entry without attributes.
fn entry(name: &str) -> ThermalEntry {
    ThermalEntry {
        name: name.into(),
        kind: None,
        policy: None,
        temp: None,
        cur_state: None,
        max_state: None,
    }
}

fn write_zone(root: &mut Vec<ThermalEntry>, n: u32, ty: &str, temp_millideg: i64, policy: &str) {
    root.push(ThermalEntry {
        kind: Some(format!("{ty}\n")),
        temp: Some(format!("{temp_millideg}\n")),
        policy: Some(format!("{policy}\n")),
        ..entry(&format!("thermal_zone{n}"))
    });
}

fn write_cooling_device(
    root: &mut Vec<ThermalEntry>,
    n: u32,
    ty: &str,
    cur_state: i64,
    max_state: i64,
) {
    root.push(ThermalEntry {
        kind: Some(format!("{ty}\n")),
        cur_state: Some(format!("{cur_state}\n")),
        max_state: Some(format!("{max_state}\n")),
        ..entry(&format!("cooling_device{n}"))
    });
}

fn collected(root: Vec<ThermalEntry>) -> Vec<Metric<f64>> {
    evaluated(collect_from("/sys/class/thermal", &Listing::Entries(root)).unwrap())
}

fn find_metric<'a>(metrics: &'a [Metric<f64>], name: &str) -> &'a Metric<f64> {
    metrics
        .iter()
        .find(|m| m.name == name)
        .unwrap_or_else(|| panic!("metric {name} not found"))
}

#[test]
fn happy_path_one_zone_one_cooling_device() {
    let mut root = Vec::new();
    write_zone(&mut root, 0, "x86_pkg_temp", 45_000, "step_wise");
    write_cooling_device(&mut root, 0, "Processor", 1, 10);

    let metrics = collected(root);
    let temp = find_metric(&metrics, "node_thermal_zone_temp");
    assert_eq!(temp.mtype, MetricType::Gauge);
    assert_eq!(temp.samples.len(), 1);
    assert!((temp.samples[0].value - 45.0).abs() < 1e-9);
    assert_eq!(temp.samples[0].labels[0], ("zone".into(), "0".into()));
    assert_eq!(
        temp.samples[0].labels[1],
        ("type".into(), "x86_pkg_temp".into())
    );

    let cur = find_metric(&metrics, "node_cooling_device_cur_state");
    assert_eq!(cur.samples.len(), 1);
    assert!((cur.samples[0].value - 1.0).abs() < f64::EPSILON);
    assert_eq!(cur.samples[0].labels[0], ("name".into(), "0".into()));
    assert_eq!(
        cur.samples[0].labels[1],
        ("type".into(), "Processor".into())
    );

    let max = find_metric(&metrics, "node_cooling_device_max_state");
    assert_eq!(max.samples.len(), 1);
    assert!((max.samples[0].value - 10.0).abs() < f64::EPSILON);
}

#[test]
fn missing_mode_file_is_not_an_error() {
    let mut root = Vec::new();
    // No `mode` file deliberately written.
    write_zone(&mut root, 0, "acpitz", 38_500, "step_wise");

    let metrics = collected(root);
    let temp = find_metric(&metrics, "node_thermal_zone_temp");
    assert_eq!(temp.samples.len(), 1);
    assert!((temp.samples[0].value - 38.5).abs() < 1e-9);
}

#[test]
fn mode_file_present_is_accepted() {
    let mut root = Vec::new();
    // The mode is not read, so it makes no difference.
    write_zone(&mut root, 0, "acpitz", 50_000, "step_wise");

    let metrics = collected(root);
    let temp = find_metric(&metrics, "node_thermal_zone_temp");
    assert_eq!(temp.samples.len(), 1);
}

#[test]
fn malformed_temp_isolates_to_that_zone() {
    let mut root = Vec::new();
    write_zone(&mut root, 0, "x86_pkg_temp", 42_000, "step_wise");
    // Zone 1 — temp file is garbage. Collector must skip it but
    // still emit zone 0.
    root.push(ThermalEntry {
        kind: Some("broken\n".into()),
        policy: Some("step_wise\n".into()),
        temp: Some("not-a-number\n".into()),
        ..entry("thermal_zone1")
    });

    let metrics = collected(root);
    let temp = find_metric(&metrics, "node_thermal_zone_temp");
    assert_eq!(temp.samples.len(), 1, "only zone 0 survives");
    assert_eq!(temp.samples[0].labels[0], ("zone".into(), "0".into()));
}

#[test]
fn missing_thermal_root_returns_empty_families() {
    // A path that doesn't exist.
    let metrics = collect_from("/nope/class/thermal", &Listing::NotFound).unwrap();
    assert_eq!(metrics.len(), 3);
    for m in &metrics {
        assert!(m.samples.is_empty(), "{} has no samples", m.name);
    }
}

#[test]
fn cooling_device_negative_cur_state_accepted() {
    let mut root = Vec::new();
    // intel_powerclamp reports cur_state=-1 when idle injection is off.
    write_cooling_device(&mut root, 0, "intel_powerclamp", -1, 50);

    let metrics = collected(root);
    let cur = find_metric(&metrics, "node_cooling_device_cur_state");
    assert_eq!(cur.samples.len(), 1);
    assert!((cur.samples[0].value - -1.0).abs() < f64::EPSILON);
}

#[test]
fn multiple_zones_are_emitted_in_index_order() {
    let mut root = Vec::new();
    // Write in non-sorted order to exercise the sort.
    write_zone(&mut root, 10, "type10", 10_000, "step_wise");
    write_zone(&mut root, 2, "type2", 2_000, "step_wise");
    write_zone(&mut root, 0, "type0", 0, "step_wise");

    let metrics = collected(root);
    let temp = find_metric(&metrics, "node_thermal_zone_temp");
    assert_eq!(temp.samples.len(), 3);
    let zones: Vec<&str> = temp
        .samples
        .iter()
        .map(|s| s.labels[0].1.as_str())
        .collect();
    assert_eq!(zones, vec!["0", "2", "10"]);
}

#[test]
fn ignores_unrelated_directories() {
    let mut root = Vec::new();
    // A subdirectory that looks similar but isn't a zone/device.
    root.push(entry("thermal_zone_special"));
    root.push(entry("cooling_device_xyz"));
    write_zone(&mut root, 0, "acpitz", 30_000, "step_wise");

    let metrics = collected(root);
    let temp = find_metric(&metrics, "node_thermal_zone_temp");
    assert_eq!(temp.samples.len(), 1);
}

#[test]
fn zones_need_type_policy_and_temp() {
    let whole = ThermalEntry {
        kind: Some(" acpitz \n".into()),
        policy: Some("p\n".into()),
        temp: Some(" -500\n".into()),
        ..entry("thermal_zone0")
    };
    let zone = parse_zone(&whole).unwrap();
    assert_eq!(zone.zone_type, "acpitz");
    assert_eq!(zone.temp_millideg, -500);
    for broken in [
        ThermalEntry { kind: None, ..whole.clone() },
        ThermalEntry { policy: None, ..whole.clone() },
        ThermalEntry { temp: None, ..whole.clone() },
    ] {
        assert!(parse_zone(&broken).is_none());
    }
    assert!(parse_cooling_device(&whole).is_none());
}

#[test]
fn indexes_past_64_bits_come_last() {
    let mut root = Vec::new();
    for name in [
        "thermal_zone99999999999999999999",
        "thermal_zone7",
        "thermal_zone007",
    ] {
        root.push(ThermalEntry {
            kind: Some("t".into()),
            policy: Some("p".into()),
            temp: Some("1".into()),
            ..entry(name)
        });
    }
    let metrics = collected(root);
    let zones: Vec<&str> = metrics[0]
        .samples
        .iter()
        .map(|s| s.labels[0].1.as_str())
        .collect();
    assert_eq!(zones, vec!["7", "007", "99999999999999999999"]);
}

#[test]
fn thermal_collector_lists_sys_class_thermal() {
    let cfg = Config::default();
    assert_eq!(ThermalZoneCollector.name(), "thermal_zone");
    assert_eq!(ThermalZoneCollector.path(&cfg), "/sys/class/thermal");
    let message = |entries: Listing<ThermalEntry>| {
        ThermalZoneCollector
            .collect(&cfg, &entries)
            .unwrap_err()
            .message
    };
    assert_eq!(message(Listing::Failed), "reading dir /sys/class/thermal");
    assert_eq!(message(Listing::Broken), "iterating /sys/class/thermal");
}
