use merlion_node_exporter_rs::collectors::time::{compute_timex_metrics, TimeCollector, Timex, STA_NANO, STA_UNSYNC};
use merlion_node_exporter_rs::metric::{Metric, MetricType, Reading, Sample, Scale, Value};

use std::time::{SystemTime, UNIX_EPOCH};

/// The number that a value stands for.
fn number(v: &Value) -> f64 {
    let r = match &v.reading {
        Reading::Unsigned(n) => *n as f64,
        Reading::Signed(n) => *n as f64,
        Reading::Clock { secs, nanos } => *secs as f64 + *nanos as f64 / 1e9,
        Reading::Span {
            seconds,
            nanoseconds,
        } => *seconds as f64 + f64::from(*nanoseconds) / 1e9,
        Reading::Decimal(text) => text.parse().unwrap(),
        Reading::NotANumber => f64::NAN,
        Reading::Infinity => f64::INFINITY,
        Reading::NegativeInfinity => f64::NEG_INFINITY,
    };
    match v.scale {
        Scale::Unit => r,
        Scale::Times(n) => r * n as f64,
        Scale::TimesThousandth => r * 0.001,
        Scale::Over(n) => r / n as f64,
        Scale::OnePlusOver(n) => 1.0 + r / n as f64,
    }
}

/// The families with the numbers that their values stand for.
fn evaluated(metrics: Vec<Metric<Value>>) -> Vec<Metric<f64>> {
    metrics
        .into_iter()
        .map(|m| Metric {
            name: m.name,
            help: m.help,
            mtype: m.mtype,
            samples: m
                .samples
                .into_iter()
                .map(|s| Sample {
                    value: number(&s.value),
                    labels: s.labels,
                })
                .collect(),
        })
        .collect()
}

/// A state of the clock with known fields, to verify every divisor and the
/// `STA_NANO` branch.
fn make_timex(status: i32) -> Timex {
    Timex {
        offset: 500_000,      // microseconds → 0.5s OR nanoseconds → 0.0005s
        freq: 65_536_000_000, // ratio = 1 + 1.0 = 2.0
        maxerror: 250_000,    // 0.25s
        esterror: 125_000,    // 0.125s
        status,
        constant: 7,
        tick: 10_000,            // 0.01s
        ppsfreq: 65_536_000_000, // 1_000_000.0
        jitter: 1_000,
        shift: 3,
        stabil: 65_536_000, // 1_000.0
        jitcnt: 1,
        calcnt: 2,
        errcnt: 3,
        stbcnt: 4,
        tai: 37,
    }
}

fn value(metrics: &[Metric<f64>], name: &str) -> f64 {
    metrics
        .iter()
        .find(|m| m.name == name)
        .unwrap_or_else(|| panic!("metric {name} not found"))
        .samples[0]
        .value
}

#[test]
fn microsecond_units_when_sta_nano_clear() {
    let t = make_timex(0); // STA_UNSYNC clear, STA_NANO clear
    let metrics = evaluated(compute_timex_metrics(&t));
    assert_eq!(metrics.len(), 17);

    // offset = 500_000 / 1e6 = 0.5
    assert!((value(&metrics, "node_timex_offset_seconds") - 0.5).abs() < 1e-9);
    // jitter = 1_000 / 1e6 = 0.001
    assert!((value(&metrics, "node_timex_pps_jitter_seconds") - 0.001).abs() < 1e-9);
    // sync_status = 1 (STA_UNSYNC not set)
    assert!((value(&metrics, "node_timex_sync_status") - 1.0).abs() < f64::EPSILON);
    // freq ratio
    assert!((value(&metrics, "node_timex_frequency_adjustment_ratio") - 2.0).abs() < 1e-9);
    // tick = 10_000 / 1e6 = 0.01
    assert!((value(&metrics, "node_timex_tick_seconds") - 0.01).abs() < 1e-9);
}

#[test]
fn nanosecond_units_when_sta_nano_set() {
    let t = make_timex(libc::STA_NANO);
    let metrics = evaluated(compute_timex_metrics(&t));
    // offset = 500_000 / 1e9 = 5e-4
    assert!(
        (value(&metrics, "node_timex_offset_seconds") - 5e-4).abs() < 1e-12,
        "offset divisor should be ns when STA_NANO is set"
    );
    assert!(
        (value(&metrics, "node_timex_pps_jitter_seconds") - 1e-6).abs() < 1e-12,
        "jitter divisor should be ns when STA_NANO is set"
    );
}

#[test]
fn sync_status_zero_when_sta_unsync_set() {
    let t = make_timex(libc::STA_UNSYNC);
    let metrics = evaluated(compute_timex_metrics(&t));
    assert!((value(&metrics, "node_timex_sync_status") - 0.0).abs() < f64::EPSILON);
}

#[test]
fn counter_typed_pps_event_metrics() {
    let t = make_timex(0);
    let metrics = compute_timex_metrics(&t);
    for name in [
        "node_timex_pps_jitter_total",
        "node_timex_pps_calibration_total",
        "node_timex_pps_error_total",
        "node_timex_pps_stability_exceeded_total",
    ] {
        let m = metrics.iter().find(|m| m.name == name).unwrap();
        assert_eq!(m.mtype, MetricType::Counter, "{name} should be Counter");
    }
}

/// The system's clock, as `clock_gettime` would tell it.
fn now() -> Option<(i64, i64)> {
    let d = SystemTime::now().duration_since(UNIX_EPOCH).unwrap();
    Some((d.as_secs() as i64, i64::from(d.subsec_nanos())))
}

#[test]
fn collect_emits_node_time_seconds() {
    let metrics = evaluated(TimeCollector.collect(now(), &None, &None).unwrap());
    let now = metrics.iter().find(|m| m.name == "node_time_seconds");
    let now = now.expect("node_time_seconds must be emitted on every platform");
    assert_eq!(now.mtype, MetricType::Gauge);
    assert_eq!(now.samples.len(), 1);
    // Plausibility: 2020-01-01 < now < 2100-01-01.
    let v = now.samples[0].value;
    assert!(v > 1_577_836_800.0, "node_time_seconds = {v}, too small");
    assert!(v < 4_102_444_800.0, "node_time_seconds = {v}, too large");
}

#[test]
fn collect_emits_zone_offset() {
    let local = Some((Some("JST".to_string()), 9 * 3600));
    let metrics = evaluated(TimeCollector.collect(now(), &local, &None).unwrap());
    let zone = metrics
        .iter()
        .find(|m| m.name == "node_time_zone_offset_seconds")
        .expect("zone offset metric");
    assert_eq!(zone.samples.len(), 1);
    // Offsets range −12h … +14h.
    let off = zone.samples[0].value;
    assert!((-12.0 * 3600.0..=14.0 * 3600.0).contains(&off));
    // The label must be present and non-empty.
    let label = &zone.samples[0].labels[0];
    assert_eq!(label.0, "time_zone");
    assert!(!label.1.is_empty());
}

#[test]
fn collect_emits_timex_family_on_linux() {
    for timex in [None, Some(make_timex(0))] {
        let metrics = TimeCollector.collect(now(), &None, &timex).unwrap();
        // Either adjtimex succeeded (17 timex metrics) or it failed
        // (0 timex metrics). Both are valid.
        let timex_count = metrics
            .iter()
            .filter(|m| m.name.starts_with("node_timex_"))
            .count();
        assert!(timex_count == 0 || timex_count == 17, "got {timex_count}");
        assert_eq!(timex_count == 17, timex.is_some());
    }
}

#[test]
fn status_bits_are_those_of_the_system() {
    assert_eq!(STA_NANO, libc::STA_NANO);
    assert_eq!(STA_UNSYNC, libc::STA_UNSYNC);
}

#[test]
fn every_field_of_the_clock_state() {
    let metrics = evaluated(compute_timex_metrics(&make_timex(0x2000)));
    let values: Vec<f64> = metrics.iter().map(|m| m.samples[0].value).collect();
    assert_eq!(
        values,
        vec![
            1.0,
            0.0005,
            2.0,
            0.25,
            0.125,
            8192.0,
            7.0,
            0.01,
            1.0,
            0.000_001,
            3.0,
            0.001,
            1.0,
            2.0,
            3.0,
            4.0,
            37.0,
        ]
    );
}

#[test]
fn a_zone_without_a_name_is_unknown() {
    let zone = Some((None, -18_000));
    let metrics = evaluated(TimeCollector.collect(Some((5, 250_000_000)), &zone, &None).unwrap());
    assert_eq!(metrics[0].samples[0].value, 5.25);
    assert_eq!(metrics[1].samples[0].value, -18_000.0);
    assert_eq!(metrics[1].samples[0].labels[0].1, "(unknown)");
}

#[test]
fn a_zone_with_an_empty_name_is_left_out() {
    let zone = Some((Some(String::new()), 3_600));
    let metrics = TimeCollector.collect(Some((5, 0)), &zone, &None).unwrap();
    assert_eq!(metrics.len(), 1);
    assert_eq!(metrics[0].name, "node_time_seconds");
}

#[test]
fn without_a_clock_the_collector_fails() {
    let err = TimeCollector.collect(None, &None, &Some(make_timex(0))).unwrap_err();
    assert_eq!(err.message, "clock_gettime(CLOCK_REALTIME) failed");
    assert_eq!(TimeCollector.name(), "time");
}
