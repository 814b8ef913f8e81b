use merlion_node_exporter_rs::collectors::netstat::{parse_all, parse_netstat, parse_snmp6, NetstatCollector};
use merlion_node_exporter_rs::source::FileRead;
use merlion_node_exporter_rs::metric::{Metric, MetricType, Reading, Sample, Scale, Value};
use merlion_node_exporter_rs::Config;

/// The number that a value stands for.
fn number(v: &Value) -> f64 {
    let r = match &v.reading {
        Reading::Unsigned(n) => *n as f64,
        Reading::Signed(n) => *n as f64,
        Reading::Clock { secs, nanos } => *secs as f64 + *nanos as f64 / 1e9,
        Reading::Span {
            seconds,
            nanoseconds,
        } => *seconds as f64 + f64::from(*nanoseconds) / 1e9,
        Reading::Decimal(text) => text.parse().unwrap(),
        Reading::NotANumber => f64::NAN,
        Reading::Infinity => f64::INFINITY,
        Reading::NegativeInfinity => f64::NEG_INFINITY,
    };
    match v.scale {
        Scale::Unit => r,
        Scale::Times(n) => r * n as f64,
        Scale::TimesThousandth => r * 0.001,
        Scale::Over(n) => r / n as f64,
        Scale::OnePlusOver(n) => 1.0 + r / n as f64,
    }
}

/// The families with the numbers that their values stand for.
fn evaluated(metrics: Vec<Metric<Value>>) -> Vec<Metric<f64>> {
    metrics
        .into_iter()
        .map(|m| Metric {
            name: m.name,
            help: m.help,
            mtype: m.mtype,
            samples: m
                .samples
                .into_iter()
                .map(|s| Sample {
                    value: number(&s.value),
                    labels: s.labels,
                })
                .collect(),
        })
        .collect()
}

/// Representative subset of upstream's
/// `node_exporter/collector/fixtures/proc/net/netstat`.
const NETSTAT_FIXTURE: &str = "\
TcpExt: SyncookiesSent SyncookiesRecv TCPOFOQueue TCPRcvQDrop
TcpExt: 0 0 42 131
IpExt: InOctets OutOctets
IpExt: 6286396970 2786264347
";

/// Subset of upstream's `/proc/net/snmp` fixture.
const SNMP_FIXTURE: &str = "\
Ip: Forwarding DefaultTTL InReceives
Ip: 1 64 57740232
Tcp: ActiveOpens PassiveOpens InSegs OutSegs
Tcp: 3556 230 57252008 54915039
Udp: InDatagrams NoPorts
Udp: 88542 120
";

/// Subset of upstream's `/proc/net/snmp6` fixture, covering each
/// protocol prefix that the snmp6 parser is expected to handle.
const SNMP6_FIXTURE: &str = "\
Ip6InReceives                   \t7
Ip6InHdrErrors                  \t0
Ip6OutOctets                    \t536
Icmp6InMsgs                     \t0
Icmp6OutMsgs                    \t8
Udp6InDatagrams                 \t0
Udp6RcvbufErrors                \t9
UdpLite6InDatagrams             \t0
";

fn sample_value(metrics: &[Metric<f64>], name: &str) -> f64 {
    metrics
        .iter()
        .find(|m| m.name == name)
        .unwrap_or_else(|| panic!("metric {name} not found"))
        .samples[0]
        .value
}

#[test]
fn parses_netstat_fixture() {
    let metrics = evaluated(parse_netstat(NETSTAT_FIXTURE).unwrap());
    // 4 TcpExt fields + 2 IpExt fields.
    assert_eq!(metrics.len(), 6);

    assert!(
        (sample_value(&metrics, "node_netstat_TcpExt_SyncookiesSent")).abs() < f64::EPSILON
    );
    assert!(
        (sample_value(&metrics, "node_netstat_TcpExt_TCPRcvQDrop") - 131.0).abs()
            < f64::EPSILON
    );
    assert!(
        (sample_value(&metrics, "node_netstat_IpExt_InOctets") - 6_286_396_970.0).abs() < 1.0
    );

    // Upstream emits Untyped.
    for m in &metrics {
        assert_eq!(m.mtype, MetricType::Untyped, "{} should be untyped", m.name);
    }
}

#[test]
fn parses_snmp_fixture() {
    let metrics = evaluated(parse_netstat(SNMP_FIXTURE).unwrap());
    // 3 Ip + 4 Tcp + 2 Udp = 9 fields.
    assert_eq!(metrics.len(), 9);
    assert!((sample_value(&metrics, "node_netstat_Ip_Forwarding") - 1.0).abs() < f64::EPSILON);
    assert!((sample_value(&metrics, "node_netstat_Tcp_InSegs") - 57_252_008.0).abs() < 1.0);
}

#[test]
fn parses_snmp6_fixture() {
    let metrics = evaluated(parse_snmp6(SNMP6_FIXTURE).unwrap());
    assert_eq!(metrics.len(), 8);
    assert!((sample_value(&metrics, "node_netstat_Ip6_InReceives") - 7.0).abs() < f64::EPSILON);
    assert!((sample_value(&metrics, "node_netstat_Icmp6_OutMsgs") - 8.0).abs() < f64::EPSILON);
    assert!(
        (sample_value(&metrics, "node_netstat_Udp6_RcvbufErrors") - 9.0).abs() < f64::EPSILON
    );
    assert!((sample_value(&metrics, "node_netstat_UdpLite6_InDatagrams")).abs() < f64::EPSILON);
    for m in &metrics {
        assert_eq!(m.mtype, MetricType::Untyped);
    }
}

#[test]
fn snmp6_skips_lines_without_six() {
    // Upstream skips lines whose first token contains no '6'. We do too.
    let raw = "TcpExtSomething 42\nIp6InReceives 7\n";
    let metrics = evaluated(parse_snmp6(raw).unwrap());
    assert_eq!(metrics.len(), 1);
    assert_eq!(metrics[0].name, "node_netstat_Ip6_InReceives");
}

#[test]
fn snmp6_skips_short_lines() {
    let raw = "OnlyOneToken\nIp6InReceives 7\n";
    let metrics = evaluated(parse_snmp6(raw).unwrap());
    assert_eq!(metrics.len(), 1);
}

#[test]
fn rejects_orphan_header_line() {
    // Header with no trailing value line.
    let raw = "Tcp: A B C\n";
    let err = parse_netstat(raw).unwrap_err().message;
    assert!(err.contains("no matching value line"), "{err}");
}

#[test]
fn rejects_header_value_count_mismatch() {
    let raw = "Tcp: A B C\nTcp: 1 2\n";
    let err = parse_netstat(raw).unwrap_err().message;
    assert!(err.contains("field count mismatch"), "{err}");
}

#[test]
fn rejects_header_missing_colon() {
    let raw = "Tcp A B\nTcp 1 2\n";
    let err = parse_netstat(raw).unwrap_err().message;
    assert!(err.contains("trailing ':'"), "{err}");
}

#[test]
fn rejects_non_numeric_value() {
    let raw = "Tcp: A\nTcp: banana\n";
    let err = parse_netstat(raw).unwrap_err().message;
    assert!(err.contains("invalid value"), "{err}");
}

#[test]
fn rejects_non_numeric_snmp6_value() {
    let err = parse_snmp6("Ip6InReceives banana\n").unwrap_err().message;
    assert!(err.contains("invalid value"), "{err}");
}

#[test]
fn netstat_errors_are_spelled_out() {
    assert_eq!(
        parse_netstat("Tcp: A B C\nTcp: 1 2\n").unwrap_err().message,
        "field count mismatch for protocol Tcp: 3 headers vs 2 values"
    );
    assert_eq!(
        parse_netstat("Tcp: A\nTcp: x\n").unwrap_err().message,
        "invalid value \"x\" for Tcp_A"
    );
    assert_eq!(
        parse_netstat("Tcp: A\n").unwrap_err().message,
        "header line \"Tcp: A\" has no matching value line"
    );
    assert_eq!(
        parse_netstat("Tcp A\nTcp 1\n").unwrap_err().message,
        "header token \"Tcp\" missing trailing ':'"
    );
    assert_eq!(
        parse_all("", "", Some("Ip6X y\n")).unwrap_err().message,
        "parsing /proc/net/snmp6: invalid value \"y\" for Ip6_X"
    );
    assert_eq!(
        parse_all("Tcp: A\n", "", None).unwrap_err().message,
        "parsing /proc/net/netstat: header line \"Tcp: A\" has no matching value line"
    );
    assert_eq!(
        parse_all("", "Tcp: A\n", None).unwrap_err().message,
        "parsing /proc/net/snmp: header line \"Tcp: A\" has no matching value line"
    );
}

#[test]
fn netstat_skips_empty_header_lines() {
    let metrics = parse_netstat("\nTcp: A\nTcp: 1\n\n").unwrap();
    assert_eq!(metrics.len(), 1);
    assert_eq!(metrics[0].help, "Statistic TcpA.");
}

#[test]
fn netstat_collector_merges_three_files() {
    let cfg = Config::default();
    let a = FileRead::Contents(NETSTAT_FIXTURE.into());
    let b = FileRead::Contents(SNMP_FIXTURE.into());
    let c = FileRead::Contents(SNMP6_FIXTURE.into());
    assert_eq!(NetstatCollector.name(), "netstat");
    assert_eq!(NetstatCollector.collect(&cfg, &a, &b, &c).unwrap().len(), 23);
    let without = NetstatCollector.collect(&cfg, &a, &b, &FileRead::NotFound);
    assert_eq!(without.unwrap().len(), 15);
    let message = |a: &FileRead, b: &FileRead, c: &FileRead| {
        NetstatCollector.collect(&cfg, a, b, c).unwrap_err().message
    };
    assert_eq!(
        message(&FileRead::NotFound, &b, &c),
        "reading /proc/net/netstat"
    );
    assert_eq!(message(&a, &FileRead::NotFound, &c), "reading /proc/net/snmp");
    assert_eq!(message(&a, &b, &FileRead::Failed), "reading /proc/net/snmp6");
}
