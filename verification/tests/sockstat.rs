use merlion_node_exporter_rs::collectors::sockstat::{pagesize_bytes, parse, SockstatCollector};
use merlion_node_exporter_rs::source::FileRead;
use merlion_node_exporter_rs::metric::{Metric, MetricType, Reading, Sample, Scale, Value};
use merlion_node_exporter_rs::Config;

/// The number that a value stands for.
fn number(v: &Value) -> f64 {
    let r = match &v.reading {
        Reading::Unsigned(n) => *n as f64,
        Reading::Signed(n) => *n as f64,
        Reading::Clock { secs, nanos } => *secs as f64 + *nanos as f64 / 1e9,
        Reading::Span {
            seconds,
            nanoseconds,
        } => *seconds as f64 + f64::from(*nanoseconds) / 1e9,
        Reading::Decimal(text) => text.parse().unwrap(),
        Reading::NotANumber => f64::NAN,
        Reading::Infinity => f64::INFINITY,
        Reading::NegativeInfinity => f64::NEG_INFINITY,
    };
    match v.scale {
        Scale::Unit => r,
        Scale::Times(n) => r * n as f64,
        Scale::TimesThousandth => r * 0.001,
        Scale::Over(n) => r / n as f64,
        Scale::OnePlusOver(n) => 1.0 + r / n as f64,
    }
}

/// The families with the numbers that their values stand for.
fn evaluated(metrics: Vec<Metric<Value>>) -> Vec<Metric<f64>> {
    metrics
        .into_iter()
        .map(|m| Metric {
            name: m.name,
            help: m.help,
            mtype: m.mtype,
            samples: m
                .samples
                .into_iter()
                .map(|s| Sample {
                    value: number(&s.value),
                    labels: s.labels,
                })
                .collect(),
        })
        .collect()
}

const V4_FIXTURE: &str = "\
sockets: used 234
TCP: inuse 12 orphan 0 tw 5 alloc 30 mem 4
UDP: inuse 8 mem 1
UDPLITE: inuse 0
RAW: inuse 1
FRAG: inuse 0 memory 0
";

const V6_FIXTURE: &str = "\
TCP6: inuse 17
UDP6: inuse 3
UDPLITE6: inuse 0
RAW6: inuse 0
FRAG6: inuse 0 memory 0
";

/// Convenience: fixed page size so `mem_bytes` is predictable.
const TEST_PAGESIZE: u64 = 4096;

fn find<'a>(metrics: &'a [Metric<f64>], name: &str) -> &'a Metric<f64> {
    metrics.iter().find(|m| m.name == name).unwrap_or_else(|| {
        panic!(
            "metric {name} not found in {:?}",
            metrics.iter().map(|m| &m.name).collect::<Vec<_>>()
        )
    })
}

#[test]
fn parses_v4_and_v6() {
    let metrics = evaluated(parse(V4_FIXTURE, Some(V6_FIXTURE), TEST_PAGESIZE).unwrap());

    // Special-cased sockets_used.
    let su = find(&metrics, "node_sockstat_sockets_used");
    assert_eq!(su.mtype, MetricType::Gauge);
    assert!((su.samples[0].value - 234.0).abs() < f64::EPSILON);

    // TCP fields.
    assert!(
        (find(&metrics, "node_sockstat_TCP_inuse").samples[0].value - 12.0).abs()
            < f64::EPSILON
    );
    assert!((find(&metrics, "node_sockstat_TCP_orphan").samples[0].value).abs() < f64::EPSILON);
    assert!(
        (find(&metrics, "node_sockstat_TCP_tw").samples[0].value - 5.0).abs() < f64::EPSILON
    );
    assert!(
        (find(&metrics, "node_sockstat_TCP_alloc").samples[0].value - 30.0).abs()
            < f64::EPSILON
    );
    assert!(
        (find(&metrics, "node_sockstat_TCP_mem").samples[0].value - 4.0).abs() < f64::EPSILON
    );

    // mem_bytes = mem * pagesize = 4 * 4096 = 16384.
    assert!(
        (find(&metrics, "node_sockstat_TCP_mem_bytes").samples[0].value - 16_384.0).abs()
            < f64::EPSILON
    );

    // UDP: inuse + mem + mem_bytes.
    assert!(
        (find(&metrics, "node_sockstat_UDP_inuse").samples[0].value - 8.0).abs() < f64::EPSILON
    );
    assert!(
        (find(&metrics, "node_sockstat_UDP_mem_bytes").samples[0].value - 4096.0).abs()
            < f64::EPSILON
    );

    // UDPLITE / RAW: just inuse.
    assert!(
        (find(&metrics, "node_sockstat_UDPLITE_inuse").samples[0].value).abs() < f64::EPSILON
    );
    assert!(
        (find(&metrics, "node_sockstat_RAW_inuse").samples[0].value - 1.0).abs() < f64::EPSILON
    );

    // FRAG: inuse + memory (note: "memory", not "mem" → no mem_bytes).
    assert!((find(&metrics, "node_sockstat_FRAG_inuse").samples[0].value).abs() < f64::EPSILON);
    assert!(
        (find(&metrics, "node_sockstat_FRAG_memory").samples[0].value).abs() < f64::EPSILON
    );
    assert!(
        metrics
            .iter()
            .all(|m| m.name != "node_sockstat_FRAG_mem_bytes"),
        "FRAG has `memory` not `mem`; mem_bytes must not appear"
    );

    // IPv6: protocol prefix retains the `6`.
    assert!(
        (find(&metrics, "node_sockstat_TCP6_inuse").samples[0].value - 17.0).abs()
            < f64::EPSILON
    );
    assert!(
        (find(&metrics, "node_sockstat_UDP6_inuse").samples[0].value - 3.0).abs()
            < f64::EPSILON
    );
    assert!(
        (find(&metrics, "node_sockstat_FRAG6_memory").samples[0].value).abs() < f64::EPSILON
    );

    // IPv6 must NOT emit a `sockets_used` metric — that is IPv4-only
    // and the sockstat6 file has no `sockets:` row.
    let used_count = metrics
        .iter()
        .filter(|m| m.name == "node_sockstat_sockets_used")
        .count();
    assert_eq!(used_count, 1, "sockets_used must be IPv4-only");
}

#[test]
fn tolerates_missing_sockstat6() {
    let metrics = evaluated(parse(V4_FIXTURE, None, TEST_PAGESIZE).unwrap());
    // Spot-check: still got the v4 metrics and no TCP6.
    assert!(metrics.iter().any(|m| m.name == "node_sockstat_TCP_inuse"));
    assert!(metrics.iter().all(|m| !m.name.contains("TCP6")));
}

#[test]
fn rejects_malformed_line_missing_colon() {
    // "TCP" without the trailing colon is not a valid prefix row.
    let err = parse("TCP inuse 1\n", None, TEST_PAGESIZE).unwrap_err();
    let msg = err.message;
    assert!(msg.contains("missing ':'"), "{msg}");
}

#[test]
fn rejects_odd_field_count() {
    // Odd number of post-prefix tokens (`inuse` with no value).
    let err = parse("TCP: inuse\n", None, TEST_PAGESIZE).unwrap_err();
    let msg = err.message;
    assert!(msg.contains("malformed key/value pairs"), "{msg}");
}

#[test]
fn sockstat_rejects_non_integer_value() {
    let err = parse("TCP: inuse banana\n", None, TEST_PAGESIZE).unwrap_err();
    let msg = err.message;
    assert!(msg.contains("parsing"), "{msg}");
}

#[test]
fn sockstat_rejects_empty_input() {
    let err = parse("", None, TEST_PAGESIZE).unwrap_err();
    let msg = err.message;
    assert!(msg.contains("no values parsed"), "{msg}");
}

#[test]
fn accepts_extra_fields_in_pairs() {
    // Real kernels may grow the field list; we accept any even number
    // of post-prefix tokens.
    let raw = "TCP: inuse 1 orphan 2 tw 3 alloc 4 mem 5\n";
    let metrics = evaluated(parse(raw, None, TEST_PAGESIZE).unwrap());
    assert!(
        (find(&metrics, "node_sockstat_TCP_alloc").samples[0].value - 4.0).abs() < f64::EPSILON
    );
    // mem_bytes = 5 * 4096 = 20480
    assert!(
        (find(&metrics, "node_sockstat_TCP_mem_bytes").samples[0].value - 20_480.0).abs()
            < f64::EPSILON
    );
}

#[test]
fn sockstat_errors_are_spelled_out() {
    let message = |raw: &str| parse(raw, None, TEST_PAGESIZE).unwrap_err().message;
    assert_eq!(
        message("TCP inuse 1\n"),
        "parsing /proc/net/sockstat: sockstat: line 1 missing ':' on \"TCP\""
    );
    assert_eq!(
        message("TCP: inuse 1 tw\n"),
        "parsing /proc/net/sockstat: sockstat: line 1 has malformed key/value pairs: [\"inuse\", \"1\", \"tw\"]"
    );
    assert_eq!(
        message("TCP:\n"),
        "parsing /proc/net/sockstat: sockstat: line 1 has malformed key/value pairs: []"
    );
    assert_eq!(
        message("\n \n"),
        "parsing /proc/net/sockstat: sockstat: line 2 empty"
    );
    assert_eq!(
        message("TCP: inuse x\n"),
        "parsing /proc/net/sockstat: sockstat: parsing TCP.inuse = \"x\""
    );
    assert_eq!(
        message("sockets: used x\n"),
        "parsing /proc/net/sockstat: sockstat: parsing sockets.used = \"x\""
    );
    assert_eq!(
        message("sockets: free 1\n"),
        "parsing /proc/net/sockstat: sockstat: line 1 sockets row missing `used`"
    );
    assert_eq!(
        parse(V4_FIXTURE, Some("TCP6 1\n"), TEST_PAGESIZE)
            .unwrap_err()
            .message,
        "parsing /proc/net/sockstat6: sockstat: line 1 missing ':' on \"TCP6\""
    );
    assert_eq!(message("\n"), "sockstat: no values parsed");
}

#[test]
fn the_last_mem_of_a_row_counts() {
    let metrics = evaluated(parse("TCP: mem 1 mem -2\n", None, 10).unwrap());
    assert_eq!(metrics.len(), 3);
    assert_eq!(metrics[2].name, "node_sockstat_TCP_mem_bytes");
    assert_eq!(metrics[2].samples[0].value, -20.0);
}

#[test]
fn an_unknown_page_size_is_four_kib() {
    assert_eq!(pagesize_bytes(-1), 4096);
    assert_eq!(pagesize_bytes(0), 4096);
    assert_eq!(pagesize_bytes(65_536), 65_536);
}

#[test]
fn sockstat_collector_reads_two_files() {
    let cfg = Config::default();
    let v4 = FileRead::Contents(V4_FIXTURE.into());
    let v6 = FileRead::Contents(V6_FIXTURE.into());
    assert_eq!(SockstatCollector.name(), "sockstat");
    assert_eq!(SockstatCollector.v4_path(&cfg), "/proc/net/sockstat");
    assert_eq!(SockstatCollector.v6_path(&cfg), "/proc/net/sockstat6");
    let both = SockstatCollector.collect(&cfg, &v4, &v6, 4096).unwrap();
    let one = SockstatCollector
        .collect(&cfg, &v4, &FileRead::NotFound, 4096)
        .unwrap();
    assert_eq!(both.len() - one.len(), 6);
    let message = |v4: &FileRead, v6: &FileRead| {
        SockstatCollector
            .collect(&cfg, v4, v6, 4096)
            .unwrap_err()
            .message
    };
    assert_eq!(message(&FileRead::NotFound, &v6), "reading /proc/net/sockstat");
    assert_eq!(message(&v4, &FileRead::Failed), "reading /proc/net/sockstat6");
}

#[test]
fn a_sockets_row_of_the_ipv6_file_is_ignored() {
    let v6 = "sockets: used 5\nTCP6: inuse 17\n";
    let metrics = parse("TCP: inuse 1\n", Some(v6), 4096).unwrap();
    let names: Vec<&str> = metrics.iter().map(|m| m.name.as_str()).collect();
    assert_eq!(
        names,
        vec!["node_sockstat_TCP_inuse", "node_sockstat_TCP6_inuse"]
    );
}
