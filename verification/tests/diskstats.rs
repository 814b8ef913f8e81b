use merlion_node_exporter_rs::collectors::diskstats::{excluded_by_default, parse, parse_excluding, DiskstatsCollector};
use merlion_node_exporter_rs::source::FileRead;
use merlion_node_exporter_rs::metric::{Metric, Reading, Sample, Scale, Value};
use merlion_node_exporter_rs::Config;

/// The number that a value stands for.
fn number(v: &Value) -> f64 {
    let r = match &v.reading {
        Reading::Unsigned(n) => *n as f64,
        Reading::Signed(n) => *n as f64,
        Reading::Clock { secs, nanos } => *secs as f64 + *nanos as f64 / 1e9,
        Reading::Span {
            seconds,
            nanoseconds,
        } => *seconds as f64 + f64::from(*nanoseconds) / 1e9,
        Reading::Decimal(text) => text.parse().unwrap(),
        Reading::NotANumber => f64::NAN,
        Reading::Infinity => f64::INFINITY,
        Reading::NegativeInfinity => f64::NEG_INFINITY,
    };
    match v.scale {
        Scale::Unit => r,
        Scale::Times(n) => r * n as f64,
        Scale::TimesThousandth => r * 0.001,
        Scale::Over(n) => r / n as f64,
        Scale::OnePlusOver(n) => 1.0 + r / n as f64,
    }
}

/// The families with the numbers that their values stand for.
fn evaluated(metrics: Vec<Metric<Value>>) -> Vec<Metric<f64>> {
    metrics
        .into_iter()
        .map(|m| Metric {
            name: m.name,
            help: m.help,
            mtype: m.mtype,
            samples: m
                .samples
                .into_iter()
                .map(|s| Sample {
                    value: number(&s.value),
                    labels: s.labels,
                })
                .collect(),
        })
        .collect()
}

// 20-field fixture (kernel ≥ 4.18). One sda (kept) + one loop0
// (filtered) + one sda1 partition (filtered).
const FIXTURE_FULL: &str = "\
   8       0 sda 1000 50 200000 1500 800 30 160000 1200 0 5000 2700 100 5 2048 25 0 0
   8       1 sda1 100 5 20000 150 80 3 16000 120 0 500 270 0 0 0 0 0 0
   7       0 loop0 0 0 0 0 0 0 0 0 0 0 0 0 0 0 0 0 0
";

// 11-field fixture (legacy kernel, no discard/flush columns).
const FIXTURE_LEGACY: &str = "\
   8       0 sda 1000 50 200000 1500 800 30 160000 1200 0 5000 2700
";

#[test]
fn parses_full_fixture() {
    let metrics = evaluated(parse(FIXTURE_FULL).unwrap());
    // 17 families emitted because the kept device has all 17 stats.
    assert_eq!(metrics.len(), 17);
    for m in &metrics {
        // sda1 is filtered out, loop0 is filtered out, so only sda
        // remains as a label value.
        assert_eq!(m.samples.len(), 1, "{}", m.name);
        assert_eq!(m.samples[0].labels[0], ("device".into(), "sda".into()));
    }
}

#[test]
fn unit_conversions() {
    let metrics = evaluated(parse(FIXTURE_FULL).unwrap());
    let by_name =
        |name: &str| metrics.iter().find(|m| m.name == name).unwrap().samples[0].value;
    // sectors × 512 → bytes. 200000 * 512 = 102_400_000.
    assert!((by_name("node_disk_read_bytes_total") - 102_400_000.0).abs() < 1.0);
    // ms / 1000 → seconds. 1500 ms → 1.5 s.
    assert!((by_name("node_disk_read_time_seconds_total") - 1.5).abs() < 1e-9);
    // counter passthrough.
    assert!((by_name("node_disk_reads_completed_total") - 1000.0).abs() < 1.0);
}

#[test]
fn omits_discard_flush_on_legacy_kernel() {
    let metrics = evaluated(parse(FIXTURE_LEGACY).unwrap());
    // 11 families, no discard/flush extensions.
    assert_eq!(metrics.len(), 11);
    let names: Vec<&str> = metrics.iter().map(|m| m.name.as_str()).collect();
    assert!(!names.iter().any(|n| n.contains("discard")));
    assert!(!names.iter().any(|n| n.contains("flush")));
}

#[test]
fn default_filter_excludes_loop_ram_partitions() {
    let raw = "\
   7       0 loop0 1 2 3 4 5 6 7 8 9 10 11
   7       1 loop1 1 2 3 4 5 6 7 8 9 10 11
   1       0 ram0 1 2 3 4 5 6 7 8 9 10 11
 252       0 zram0 1 2 3 4 5 6 7 8 9 10 11
   8       1 sda1 1 2 3 4 5 6 7 8 9 10 11
 259       1 nvme0n1p1 1 2 3 4 5 6 7 8 9 10 11
   2       0 fd0 1 2 3 4 5 6 7 8 9 10 11
";
    let metrics = evaluated(parse(raw).unwrap());
    assert!(metrics.is_empty(), "every device should be filtered");
}

#[test]
fn keeps_base_nvme_device() {
    let raw = "259       0 nvme0n1 100 0 1000 50 200 0 2000 100 0 500 300\n";
    let metrics = evaluated(parse(raw).unwrap());
    // 11 families, all on the kept device.
    assert_eq!(metrics.len(), 11);
    assert_eq!(metrics[0].samples[0].labels[0].1, "nvme0n1");
}

#[test]
fn diskstats_rejects_non_integer_field() {
    let raw = "   8       0 sda 1000 50 banana 1500 800 30 160000 1200 0 5000 2700\n";
    let err = parse(raw).unwrap_err().message;
    assert!(err.contains("field"), "{err}");
}

#[test]
fn diskstats_rejects_truncated_row() {
    let raw = "   8       0 sda 1 2 3 4 5\n";
    let err = parse(raw).unwrap_err().message;
    assert!(err.contains("expected at least 11"), "{err}");
}

#[test]
fn empty_input_returns_no_metrics() {
    let metrics = evaluated(parse("").unwrap());
    assert!(metrics.is_empty());
}

#[test]
fn default_filter_keeps_base_devices() {
    for device in ["sda", "hdb", "xvdc", "nvme0n1", "dm-0", "md127", "ram", "sr0"] {
        assert!(!excluded_by_default(device), "{device}");
    }
    for device in ["sda1", "hdb12", "xvdc3", "vda9", "nvme10n1p2", "ram15", "zram0", "loop7", "fd0"] {
        assert!(excluded_by_default(device), "{device}");
    }
}

#[test]
fn diskstats_errors_are_spelled_out() {
    let raw = "   8       0 sda 1 2 3\n";
    let message = parse(raw).unwrap_err().message;
    assert!(message.contains("sda"), "{message}");
    assert!(message.contains("expected at least 11"), "{message}");
}

#[test]
fn listed_devices_are_left_out() {
    let raw = "   8       0 sda 1 2 3 4 5 6 7 8 9 10 11\n   8       1 sdb 1 2 3 4 5 6 7 8 9 10 11\n";
    let metrics = evaluated(parse_excluding(raw, &["sda".to_string()]).unwrap());
    assert_eq!(metrics.len(), 11);
    assert_eq!(metrics[0].samples.len(), 1);
    assert_eq!(metrics[0].samples[0].labels[0].1, "sdb");
}

#[test]
fn diskstats_collector_reads_proc_diskstats() {
    let cfg = Config::default();
    assert_eq!(DiskstatsCollector.name(), "diskstats");
    assert_eq!(DiskstatsCollector.path(&cfg), "/proc/diskstats");
    let err = DiskstatsCollector
        .collect(&cfg, &FileRead::Failed)
        .unwrap_err();
    assert_eq!(err.message, "reading /proc/diskstats");
}

#[test]
fn no_family_leaves_a_device_out() {
    let raw = "8 0 sda 1 2 3 4 5 6 7 8 9 10 11 12 13 14 15 16 17\n8 16 sdb 1 2 3 4 5 6 7 8 9 10 11\n";
    let metrics = parse(raw).unwrap();
    assert_eq!(metrics.len(), 11);
    for m in &metrics {
        let devices: Vec<&str> = m.samples.iter().map(|s| s.labels[0].1.as_str()).collect();
        assert_eq!(devices, vec!["sda", "sdb"], "{}", m.name);
    }
}
