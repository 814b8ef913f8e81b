use merlion_node_exporter_rs::collectors::netdev::{parse, NetdevCollector};
use merlion_node_exporter_rs::source::FileRead;
use merlion_node_exporter_rs::metric::{Metric, MetricType, Reading, Sample, Scale, Value};
use merlion_node_exporter_rs::Config;

/// The number that a value stands for.
fn number(v: &Value) -> f64 {
    let r = match &v.reading {
        Reading::Unsigned(n) => *n as f64,
        Reading::Signed(n) => *n as f64,
        Reading::Clock { secs, nanos } => *secs as f64 + *nanos as f64 / 1e9,
        Reading::Span {
            seconds,
            nanoseconds,
        } => *seconds as f64 + f64::from(*nanoseconds) / 1e9,
        Reading::Decimal(text) => text.parse().unwrap(),
        Reading::NotANumber => f64::NAN,
        Reading::Infinity => f64::INFINITY,
        Reading::NegativeInfinity => f64::NEG_INFINITY,
    };
    match v.scale {
        Scale::Unit => r,
        Scale::Times(n) => r * n as f64,
        Scale::TimesThousandth => r * 0.001,
        Scale::Over(n) => r / n as f64,
        Scale::OnePlusOver(n) => 1.0 + r / n as f64,
    }
}

/// The families with the numbers that their values stand for.
fn evaluated(metrics: Vec<Metric<Value>>) -> Vec<Metric<f64>> {
    metrics
        .into_iter()
        .map(|m| Metric {
            name: m.name,
            help: m.help,
            mtype: m.mtype,
            samples: m
                .samples
                .into_iter()
                .map(|s| Sample {
                    value: number(&s.value),
                    labels: s.labels,
                })
                .collect(),
        })
        .collect()
}

// Real-looking /proc/net/dev fixture — two header rows then `lo`
// and `eth0`. Values are arbitrary but each interface uses
// distinct numbers so per-field assertions are unambiguous.
const FIXTURE: &str = "\
Inter-|   Receive                                                |  Transmit
 face |bytes    packets errs drop fifo frame compressed multicast|bytes    packets errs drop fifo colls carrier compressed
    lo: 1000      10    0    0    0    0       0          0       1000      10    0    0    0    0       0          0
  eth0: 2000000  2000   1    2    3    4       5          6       3000000  3000   7    8    9   10      11         12
";

#[test]
fn netdev_parses_happy_path() {
    let metrics = evaluated(parse(FIXTURE).unwrap());
    assert_eq!(metrics.len(), 16, "16 metric families (8 RX + 8 TX)");

    // Spot-check names and types.
    assert_eq!(metrics[0].name, "node_network_receive_bytes_total");
    assert_eq!(metrics[0].mtype, MetricType::Counter);
    assert_eq!(metrics[15].name, "node_network_transmit_compressed_total");

    // Every family has exactly one sample per interface (2).
    for m in &metrics {
        assert_eq!(m.samples.len(), 2, "{} should have 2 samples", m.name);
        assert_eq!(m.samples[0].labels[0].0, "device");
        assert_eq!(m.samples[0].labels[0].1, "lo");
        assert_eq!(m.samples[1].labels[0].1, "eth0");
    }

    // RX bytes for eth0 = 2_000_000.
    let rx_bytes = &metrics[0];
    assert!((rx_bytes.samples[1].value - 2_000_000.0).abs() < f64::EPSILON);

    // TX packets for eth0 = 3000. Field index 9.
    let tx_packets = &metrics[9];
    assert_eq!(tx_packets.name, "node_network_transmit_packets_total");
    assert!((tx_packets.samples[1].value - 3000.0).abs() < f64::EPSILON);

    // transmit_colls for eth0 = 10. Field index 13.
    let colls = &metrics[13];
    assert_eq!(colls.name, "node_network_transmit_colls_total");
    assert!((colls.samples[1].value - 10.0).abs() < f64::EPSILON);

    // transmit_carrier for eth0 = 11. Field index 14.
    let carrier = &metrics[14];
    assert_eq!(carrier.name, "node_network_transmit_carrier_total");
    assert!((carrier.samples[1].value - 11.0).abs() < f64::EPSILON);
}

#[test]
fn parses_interface_name_with_colon() {
    // VLAN-style aliases like `eth0:0` contain a colon in the name;
    // we must use the *last* ':' as the field separator.
    let raw = "\
Inter-|   Receive                                                |  Transmit
 face |bytes    packets errs drop fifo frame compressed multicast|bytes    packets errs drop fifo colls carrier compressed
 eth0:0: 1 2 3 4 5 6 7 8 9 10 11 12 13 14 15 16
";
    let metrics = evaluated(parse(raw).unwrap());
    assert_eq!(metrics[0].samples.len(), 1);
    assert_eq!(metrics[0].samples[0].labels[0].1, "eth0:0");
    // First field = receive_bytes = 1.
    assert!((metrics[0].samples[0].value - 1.0).abs() < f64::EPSILON);
    // Last field = transmit_compressed = 16.
    assert!((metrics[15].samples[0].value - 16.0).abs() < f64::EPSILON);
}

#[test]
fn rejects_empty_file() {
    let err = parse("").unwrap_err().message;
    assert!(err.contains("no interfaces parsed"), "{err}");
}

#[test]
fn rejects_headers_only() {
    // Two header rows and nothing else — no interface data.
    let raw = "\
Inter-|   Receive                                                |  Transmit
 face |bytes    packets errs drop fifo frame compressed multicast|bytes    packets errs drop fifo colls carrier compressed
";
    let err = parse(raw).unwrap_err().message;
    assert!(err.contains("no interfaces parsed"), "{err}");
}

#[test]
fn rejects_line_missing_colon() {
    let raw = "\
Inter-|   Receive                                                |  Transmit
 face |bytes    packets errs drop fifo frame compressed multicast|bytes    packets errs drop fifo colls carrier compressed
lo 1 2 3 4 5 6 7 8 9 10 11 12 13 14 15 16
";
    let err = parse(raw).unwrap_err().message;
    assert!(err.contains("missing ':'"), "{err}");
}

#[test]
fn rejects_truncated_counter_row() {
    // Only 5 counters supplied; needs 16.
    let raw = "\
Inter-|   Receive                                                |  Transmit
 face |bytes    packets errs drop fifo frame compressed multicast|bytes    packets errs drop fifo colls carrier compressed
 lo: 1 2 3 4 5
";
    let err = parse(raw).unwrap_err().message;
    assert!(err.contains("missing field"), "{err}");
}

#[test]
fn rejects_non_integer_counter() {
    let raw = "\
Inter-|   Receive                                                |  Transmit
 face |bytes    packets errs drop fifo frame compressed multicast|bytes    packets errs drop fifo colls carrier compressed
 lo: 1 banana 3 4 5 6 7 8 9 10 11 12 13 14 15 16
";
    let err = parse(raw).unwrap_err().message;
    assert!(err.contains("parsing"), "{err}");
}

#[test]
fn skips_blank_lines_between_interfaces() {
    let raw = "\
Inter-|   Receive                                                |  Transmit
 face |bytes    packets errs drop fifo frame compressed multicast|bytes    packets errs drop fifo colls carrier compressed
    lo: 1 2 3 4 5 6 7 8 9 10 11 12 13 14 15 16

  eth0: 16 15 14 13 12 11 10 9 8 7 6 5 4 3 2 1
";
    let metrics = evaluated(parse(raw).unwrap());
    assert_eq!(metrics[0].samples.len(), 2);
    assert_eq!(metrics[0].samples[0].labels[0].1, "lo");
    assert_eq!(metrics[0].samples[1].labels[0].1, "eth0");
}

#[test]
fn netdev_errors_are_spelled_out() {
    let row = |line: &str| parse(&format!("h\nh\n{line}\n")).unwrap_err().message;
    assert_eq!(row("lo 1 2"), "netdev: line 3 missing ':'");
    assert_eq!(row(" : 1 2"), "netdev: line 3 has empty interface name");
    assert_eq!(
        row("lo: 1 2 3 4 5"),
        "netdev: lo: missing field 5 (receive_frame) on line 3"
    );
    assert_eq!(row("lo: 1 x 3"), "netdev: lo: parsing receive_packets");
}

#[test]
fn netdev_collector_reads_proc_net_dev() {
    let cfg = Config::default();
    assert_eq!(NetdevCollector.name(), "netdev");
    assert_eq!(NetdevCollector.path(&cfg), "/proc/net/dev");
    let read = FileRead::Contents(FIXTURE.into());
    assert_eq!(NetdevCollector.collect(&cfg, &read).unwrap().len(), 16);
    let err = NetdevCollector
        .collect(&cfg, &FileRead::NotFound)
        .unwrap_err();
    assert_eq!(err.message, "reading /proc/net/dev");
}
