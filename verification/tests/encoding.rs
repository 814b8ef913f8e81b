use merlion_node_exporter_rs::collectors::textfile::parse_exposition;
use merlion_node_exporter_rs::encoding::{encode, escape_help, write_labels, write_value, CONTENT_TYPE};
use merlion_node_exporter_rs::metric::{Double, Metric, MetricType, Reading, Sample};

fn double(v: f64) -> Double {
    Double {
        bits: v.to_bits(),
        shortest: format!("{v}"),
    }
}

fn written(v: f64) -> String {
    let mut out = String::new();
    write_value(&mut out, &double(v));
    out
}

#[test]
fn encodes_counter_with_labels() {
    let m = Metric::new("node_test_total", "Test counter.", MetricType::Counter)
        .with_sample(Sample::new(double(3.0)).with_label("path", "/a"));
    let s = encode(&[m]);
    assert!(s.contains("# HELP node_test_total Test counter."));
    assert!(s.contains("# TYPE node_test_total counter"));
    assert!(s.contains(r#"node_test_total{path="/a"} 3"#));
}

#[test]
fn escapes_label_value() {
    let m = Metric::new("g", "g", MetricType::Gauge)
        .with_sample(Sample::new(double(1.0)).with_label("k", "a\"b\\c\nd"));
    let s = encode(&[m]);
    assert!(s.contains(r#"k="a\"b\\c\nd""#));
}

#[test]
fn integer_values_print_without_decimal() {
    let m = Metric::new("g", "g", MetricType::Gauge).with_sample(Sample::new(double(42.0)));
    assert!(encode(&[m]).contains("g 42\n"));
}

#[test]
fn float_values_print_full_precision() {
    let m = Metric::new("g", "g", MetricType::Gauge).with_sample(Sample::new(double(1.5)));
    assert!(encode(&[m]).contains("g 1.5\n"));
}

#[test]
fn skips_empty_families() {
    let m: Metric<Double> = Metric::new("empty", "h", MetricType::Gauge);
    assert_eq!(encode(&[m]), "");
}

#[test]
fn special_values() {
    assert_eq!(written(f64::NAN), "NaN");
    assert_eq!(written(-f64::NAN), "NaN");
    assert_eq!(written(f64::INFINITY), "+Inf");
    assert_eq!(written(f64::NEG_INFINITY), "-Inf");
    assert_eq!(written(0.0), "0");
    assert_eq!(written(-0.0), "0");
}

#[test]
fn values_print_as_the_language_prints_them() {
    let reference = |v: f64| {
        if v == v.trunc() && v.abs() < 1e15 {
            format!("{}", v as i64)
        } else {
            format!("{v}")
        }
    };
    let mut values = vec![
        1.0,
        -1.0,
        0.5,
        -2.5,
        1e14,
        999_999_999_999_999.0,
        -999_999_999_999_999.0,
        1e15,
        -1e15,
        999_999_999_999_999.9,
        4_503_599_627_370_496.0,
        9_007_199_254_740_993.0,
        1e300,
        -1e300,
        f64::MIN_POSITIVE,
        5e-324,
        f64::MAX,
        f64::EPSILON,
        0.1,
        1.0 / 3.0,
        1.0 - f64::EPSILON / 2.0,
        2.0_f64.powi(49),
        2.0_f64.powi(50),
        2.0_f64.powi(-1),
    ];
    for n in 0..64 {
        values.push(2.0_f64.powi(n));
        values.push(2.0_f64.powi(n) + 0.5);
        values.push(-(2.0_f64.powi(n)) - 1.0);
        values.push(3.0 * 2.0_f64.powi(n - 30));
    }
    for v in values {
        assert_eq!(written(v), reference(v), "{v:e}");
    }
}

#[test]
fn whole_text_of_two_families() {
    let text = encode(&[
        Metric::new("a", "first\nline \\", MetricType::Counter)
            .with_sample(Sample::new(double(1.0)))
            .with_sample(
                Sample::new(double(2.5))
                    .with_label("k", "v")
                    .with_label("l", "w"),
            ),
        Metric::new("b", "", MetricType::Untyped).with_sample(Sample::new(double(-3.0))),
    ]);
    assert_eq!(
        text,
        "# HELP a first\\nline \\\\\n# TYPE a counter\na 1\na{k=\"v\",l=\"w\"} 2.5\n# HELP b \n# TYPE b untyped\nb -3\n"
    );
    assert_eq!(CONTENT_TYPE, "text/plain; version=0.0.4; charset=utf-8");
}

#[test]
fn help_texts_are_escaped() {
    assert_eq!(escape_help("a\\b\nc\"d"), "a\\\\b\\nc\"d");
}

#[test]
fn no_labels_no_braces() {
    let mut out = "x".to_string();
    write_labels(&mut out, &Vec::new());
    assert_eq!(out, "x");
    write_labels(&mut out, &vec![("a".to_string(), "\"\\\n".to_string())]);
    assert_eq!(out, "x{a=\"\\\"\\\\\\n\"}");
}

#[test]
fn what_is_written_is_read_back() {
    let text = encode(&[
        Metric::new("a_total", "Back\\slash and\nline feed.", MetricType::Counter)
            .with_sample(
                Sample::new(double(1.5))
                    .with_label("path", "C:\\dir \"x\"\n,=}")
                    .with_label("empty", ""),
            )
            .with_sample(Sample::new(double(f64::NAN))),
        Metric::new("no_samples", "h", MetricType::Gauge),
        Metric::new("b", "", MetricType::Untyped).with_sample(Sample::new(double(f64::INFINITY))),
    ]);
    let back = parse_exposition(&text).unwrap();
    assert_eq!(back.len(), 2);
    assert_eq!(back[0].name, "a_total");
    assert_eq!(back[0].help, "Back\\slash and\nline feed.");
    assert_eq!(back[0].mtype, MetricType::Counter);
    assert_eq!(
        back[0].samples[0].labels,
        vec![
            ("path".to_string(), "C:\\dir \"x\"\n,=}".to_string()),
            ("empty".to_string(), String::new()),
        ]
    );
    assert!(matches!(&back[0].samples[0].value.reading, Reading::Decimal(t) if t == "1.5"));
    assert!(matches!(back[0].samples[1].value.reading, Reading::NotANumber));
    assert!(matches!(back[1].samples[0].value.reading, Reading::Infinity));
    assert_eq!(back[1].help, "");
}

#[test]
fn written_values_read_back_as_the_same_doubles() {
    let mut values = vec![0.1, -1.0 / 3.0, 1e15, -1e22, 5e-324, f64::MAX, f64::MIN_POSITIVE, 0.0];
    for n in -200..200 {
        values.push(2.0_f64.powi(n) * 1.1);
        values.push(-(2.0_f64.powi(n)));
    }
    for v in values {
        let text = written(v);
        assert_eq!(text.parse::<f64>().unwrap(), v, "{text}");
        assert!(v != v.trunc() || !text.contains('.'), "{text}");
        let back = parse_exposition(&format!("x {text}\n")).unwrap();
        assert!(matches!(&back[0].samples[0].value.reading, Reading::Decimal(t) if *t == text));
    }
}

#[test]
fn a_family_is_a_line_for_each_sample_and_two_more() {
    let family = Metric::new("a", "x\ny", MetricType::Gauge)
        .with_sample(Sample::new(double(1.0)).with_label("k", "\n\n"))
        .with_sample(Sample::new(double(0.25)));
    let text = encode(&[family]);
    assert_eq!(text.matches('\n').count(), 4);
    assert!(text.ends_with('\n'));
}
