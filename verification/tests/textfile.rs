use merlion_node_exporter_rs::collectors::textfile::{
    collect_from_dir, is_prom_file, merge_families, parse_exposition, parse_labels, parse_value,
    scan_quoted, TextFile, TextfileCollector,
};
use merlion_node_exporter_rs::metric::{Metric, MetricType, Reading, Sample, Scale, Value};
use merlion_node_exporter_rs::Config;

/// The number that a value stands for.
fn number(v: &Value) -> f64 {
    let r = match &v.reading {
        Reading::Unsigned(n) => *n as f64,
        Reading::Signed(n) => *n as f64,
        Reading::Clock { secs, nanos } => *secs as f64 + *nanos as f64 / 1e9,
        Reading::Span {
            seconds,
            nanoseconds,
        } => *seconds as f64 + f64::from(*nanoseconds) / 1e9,
        Reading::Decimal(text) => text.parse().unwrap(),
        Reading::NotANumber => f64::NAN,
        Reading::Infinity => f64::INFINITY,
        Reading::NegativeInfinity => f64::NEG_INFINITY,
    };
    match v.scale {
        Scale::Unit => r,
        Scale::Times(n) => r * n as f64,
        Scale::TimesThousandth => r * 0.001,
        Scale::Over(n) => r / n as f64,
        Scale::OnePlusOver(n) => 1.0 + r / n as f64,
    }
}

/// The families with the numbers that their values stand for.
fn evaluated(metrics: Vec<Metric<Value>>) -> Vec<Metric<f64>> {
    metrics
        .into_iter()
        .map(|m| Metric {
            name: m.name,
            help: m.help,
            mtype: m.mtype,
            samples: m
                .samples
                .into_iter()
                .map(|s| Sample {
                    value: number(&s.value),
                    labels: s.labels,
                })
                .collect(),
        })
        .collect()
}

fn metric<'a>(metrics: &'a [Metric<f64>], name: &str) -> &'a Metric<f64> {
    metrics
        .iter()
        .find(|m| m.name == name)
        .unwrap_or_else(|| panic!("missing metric {name}"))
}

#[test]
fn parses_simple_gauge() {
    let raw = "\
# HELP foo_bytes Some help.
# TYPE foo_bytes gauge
foo_bytes 42
";
    let m = evaluated(parse_exposition(raw).unwrap());
    assert_eq!(m.len(), 1);
    assert_eq!(m[0].name, "foo_bytes");
    assert_eq!(m[0].help, "Some help.");
    assert_eq!(m[0].mtype, MetricType::Gauge);
    assert_eq!(m[0].samples.len(), 1);
    assert!((m[0].samples[0].value - 42.0).abs() < f64::EPSILON);
}

#[test]
fn parses_labels_with_escapes() {
    let raw = r#"foo{a="x",b="y\"z\\w"} 1"#;
    let m = evaluated(parse_exposition(raw).unwrap());
    assert_eq!(m[0].samples[0].labels.len(), 2);
    assert_eq!(m[0].samples[0].labels[0], ("a".into(), "x".into()));
    assert_eq!(m[0].samples[0].labels[1], ("b".into(), "y\"z\\w".into()),);
}

#[test]
fn untyped_when_no_type_directive() {
    let m = evaluated(parse_exposition("foo 1").unwrap());
    assert_eq!(m[0].mtype, MetricType::Untyped);
    assert_eq!(m[0].help, "");
}

#[test]
fn ignores_trailing_timestamp() {
    let m = evaluated(parse_exposition("foo 1 1700000000000").unwrap());
    assert!((m[0].samples[0].value - 1.0).abs() < f64::EPSILON);
}

#[test]
fn parses_special_values() {
    let m = evaluated(parse_exposition("a 1\nb NaN\nc +Inf\nd -Inf").unwrap());
    assert!(
        m.iter().find(|x| x.name == "b").unwrap().samples[0]
            .value
            .is_nan()
    );
    assert!(metric(&m, "c").samples[0].value.is_infinite());
    assert!(metric(&m, "d").samples[0].value.is_sign_negative());
}

#[test]
fn rejects_unterminated_labels() {
    assert!(parse_exposition("foo{a=\"x 1").is_err());
}

#[test]
fn rejects_unquoted_label_value() {
    assert!(parse_exposition("foo{a=x} 1").is_err());
}

#[test]
fn unconfigured_directory_returns_empty() {
    let cfg = Config::default();
    let out = TextfileCollector.collect(&cfg, None).unwrap();
    assert!(out.is_empty());
}

#[test]
fn missing_directory_emits_scrape_error_one() {
    let out = evaluated(collect_from_dir(None));
    let err = metric(&out, "node_textfile_scrape_error");
    assert!((err.samples[0].value - 1.0).abs() < f64::EPSILON);
}

/// A file of the directory.
fn file(name: &str, contents: &str) -> TextFile {
    TextFile {
        name: name.into(),
        bytes: name.into(),
        utf8: true,
        contents: Some(contents.into()),
        mtime: Some((1_700_000_000, 500_000_000)),
    }
}

#[test]
fn happy_path_directory_with_two_files() {
    let out = evaluated(collect_from_dir(Some(vec![
        file(
            "a.prom",
            "# HELP a_total Total.\n# TYPE a_total counter\na_total 1\n",
        ),
        file("b.prom", "b_gauge 2\n"),
        // A non-.prom file in the same dir must be ignored.
        file("ignore.txt", "junk\n"),
    ])));
    assert!((metric(&out, "a_total").samples[0].value - 1.0).abs() < f64::EPSILON);
    assert!((metric(&out, "b_gauge").samples[0].value - 2.0).abs() < f64::EPSILON);
    let mtime = metric(&out, "node_textfile_mtime_seconds");
    assert_eq!(mtime.samples.len(), 2);
    let err = metric(&out, "node_textfile_scrape_error");
    assert!((err.samples[0].value - 0.0).abs() < f64::EPSILON);
}

#[test]
fn malformed_file_marks_scrape_error_but_keeps_good_files() {
    let out = evaluated(collect_from_dir(Some(vec![
        file("good.prom", "good_gauge 3\n"),
        file("bad.prom", "bad{a=missing_quote} 1\n"),
    ])));
    assert!((metric(&out, "good_gauge").samples[0].value - 3.0).abs() < f64::EPSILON);
    let err = metric(&out, "node_textfile_scrape_error");
    assert!((err.samples[0].value - 1.0).abs() < f64::EPSILON);
    // mtime should only have the good file recorded.
    let mtime = metric(&out, "node_textfile_mtime_seconds");
    assert_eq!(mtime.samples.len(), 1);
    assert_eq!(mtime.samples[0].labels[0].1, "good.prom");
}

#[test]
fn merges_same_metric_across_files() {
    let out = evaluated(collect_from_dir(Some(vec![
        file("a.prom", "shared{src=\"a\"} 1\n"),
        file("b.prom", "shared{src=\"b\"} 2\n"),
    ])));
    let shared = metric(&out, "shared");
    assert_eq!(shared.samples.len(), 2);
}

#[test]
fn files_are_taken_in_the_order_of_their_names() {
    let out = evaluated(collect_from_dir(Some(vec![
        file("b.prom", "# HELP m from b\nm{f=\"b\"} 2\n"),
        file("a.prom", "# HELP m from a\nm{f=\"a\"} 1\n"),
    ])));
    let m = metric(&out, "m");
    assert_eq!(m.help, "from a");
    assert_eq!(m.samples[0].labels[0].1, "a");
    assert_eq!(m.samples[1].labels[0].1, "b");
    let mtime = metric(&out, "node_textfile_mtime_seconds");
    assert_eq!(mtime.samples[0].value, 1_700_000_000.5);
    let names: Vec<&str> = out.iter().map(|m| m.name.as_str()).collect();
    assert_eq!(
        names,
        vec!["m", "node_textfile_mtime_seconds", "node_textfile_scrape_error"]
    );
}

#[test]
fn unreadable_files_mark_the_scrape_error() {
    let mut broken = file("x.prom", "");
    broken.contents = None;
    let out = evaluated(collect_from_dir(Some(vec![broken])));
    assert_eq!(metric(&out, "node_textfile_scrape_error").samples[0].value, 1.0);
    assert!(metric(&out, "node_textfile_mtime_seconds").samples.is_empty());
}

#[test]
fn a_name_that_is_not_utf8_has_an_empty_label() {
    let mut odd = file("\u{FFFD}.prom", "m 1\n");
    odd.utf8 = false;
    let out = evaluated(collect_from_dir(Some(vec![odd])));
    let mtime = metric(&out, "node_textfile_mtime_seconds");
    assert_eq!(mtime.samples[0].labels[0], ("file".into(), "".into()));
}

#[test]
fn only_the_prom_extension_counts() {
    assert!(is_prom_file("a.prom"));
    assert!(is_prom_file("..prom"));
    assert!(is_prom_file("a.b.prom"));
    assert!(!is_prom_file(".prom"));
    assert!(!is_prom_file("prom"));
    assert!(!is_prom_file("a.prom~"));
    assert!(!is_prom_file("a.PROM"));
}

#[test]
fn textfile_errors_are_spelled_out() {
    let message = |raw: &str| parse_exposition(raw).unwrap_err().message;
    assert_eq!(message("# TYPE foo\n"), "line 1: malformed TYPE");
    assert_eq!(message("\nfoo\n"), "line 2: missing value");
    assert_eq!(message("foo{a=\"b\"}\n"), "line 1: missing value");
    assert_eq!(message("{a=\"b\"} 1\n"), "line 1: empty metric name");
    assert_eq!(message("foo{a=\"b\" 1\n"), "line 1: unterminated label block");
    assert_eq!(message("foo{a} 1\n"), "line 1: label missing =");
    assert_eq!(message("foo{=\"b\"} 1\n"), "line 1: empty label name");
    assert_eq!(message("foo{a=b} 1\n"), "line 1: label value must be quoted");
    assert_eq!(message("foo{a=\"b} 1\n"), "line 1: unterminated quoted string");
    assert_eq!(
        message("foo{a=\"b\" c=\"d\"} 1\n"),
        "line 1: expected ',' between labels, got \"c=\\\"d\\\"\""
    );
    assert_eq!(message("foo x\n"), "line 1: bad value \"x\"");
}

#[test]
fn labels_may_be_spaced_and_end_in_a_comma() {
    let labels = |s: &str| parse_labels(&s.chars().collect::<Vec<char>>()).unwrap();
    assert_eq!(
        labels(" a = \"1\" , b=\"2\", "),
        vec![("a".into(), "1".into()), ("b".into(), "2".into())]
    );
    assert!(labels("  ").is_empty());
}

#[test]
fn quoted_strings_are_decoded() {
    let scan = |s: &str| {
        let chars: Vec<char> = s.chars().collect();
        scan_quoted(&chars).map(|(text, tail)| (text, tail.iter().collect::<String>()))
    };
    assert_eq!(scan("a\"b").unwrap(), ("a".into(), "b".into()));
    assert_eq!(scan("\\\\\\\"\\n\\x\"").unwrap(), ("\\\"\n\\x".into(), "".into()));
    assert_eq!(scan("é\\ü\"").unwrap(), ("é\\ü".into(), "".into()));
    assert_eq!(scan("a\\").unwrap_err().message, "unterminated quoted string");
    assert!(scan("a\\\"").is_err());
}

#[test]
fn help_and_type_directives() {
    let raw = "# HELP foo a\\\\b\\nc\\x \n# TYPE foo counter\n# HELP  bar\n# TYPE bar summary\n# a comment\n#HELP baz q\n";
    let m = parse_exposition(raw).unwrap();
    let names: Vec<&str> = m.iter().map(|m| m.name.as_str()).collect();
    assert_eq!(names, vec!["foo", "bar", "baz"]);
    assert_eq!(m[0].help, "a\\b\nc\\x");
    assert_eq!(m[0].mtype, MetricType::Counter);
    assert_eq!(m[1].help, "");
    assert_eq!(m[1].mtype, MetricType::Untyped);
    assert_eq!(m[2].help, "q");
}

#[test]
fn values_of_every_spelling() {
    let value = |s: &str| parse_value(&s.chars().collect::<Vec<char>>());
    assert!(number(&value("nan").unwrap()).is_nan());
    assert_eq!(number(&value("+Inf").unwrap()), f64::INFINITY);
    assert_eq!(number(&value("-inf").unwrap()), f64::NEG_INFINITY);
    assert_eq!(number(&value("1.5e3").unwrap()), 1500.0);
    assert_eq!(number(&value("-infinity").unwrap()), f64::NEG_INFINITY);
    assert!(value("0x10").is_err());
}

#[test]
fn families_of_two_files_are_merged() {
    let mut into = parse_exposition("a 1\nb 2\n").unwrap();
    merge_families(&mut into, parse_exposition("# TYPE a gauge\na 3\nc 4\n").unwrap());
    let into = evaluated(into);
    let names: Vec<&str> = into.iter().map(|m| m.name.as_str()).collect();
    assert_eq!(names, vec!["a", "b", "c"]);
    assert_eq!(into[0].mtype, MetricType::Untyped);
    assert_eq!(into[0].samples[1].value, 3.0);
}

#[test]
fn a_configured_directory_is_collected() {
    let cfg = Config::default().with_textfile_directory(Some("/var/lib/prom".into()));
    assert_eq!(TextfileCollector.name(), "textfile");
    let out = evaluated(
        TextfileCollector
            .collect(&cfg, Some(vec![file("a.prom", "x 1\n")]))
            .unwrap(),
    );
    assert_eq!(out.len(), 3);
    assert_eq!(TextfileCollector.collect(&cfg, None).unwrap().len(), 1);
}

#[test]
fn blanks_and_tabs_separate_tokens() {
    let raw = "#\tHELP\tfoo\t a b\n# TYPE\tfoo \tgauge\nfoo \t{a=\"b\"}\t1 2\n# HELP\n# TYPE\n# HELPER x y\n";
    let m = evaluated(parse_exposition(raw).unwrap());
    assert_eq!(m.len(), 1);
    assert_eq!(m[0].name, "foo");
    assert_eq!(m[0].help, "a b");
    assert_eq!(m[0].mtype, MetricType::Gauge);
    assert_eq!(m[0].samples[0].labels, vec![("a".into(), "b".into())]);
    assert_eq!(m[0].samples[0].value, 1.0);
}

#[test]
fn braces_in_label_values_are_text() {
    let raw = "foo{a=\"x}y\",b = \"{}\\\"}\"} 1\nbar{} 2\nbaz{q\"r=\"}\"} 3\n";
    let m = evaluated(parse_exposition(raw).unwrap());
    assert_eq!(
        m[0].samples[0].labels,
        vec![("a".into(), "x}y".into()), ("b".into(), "{}\"}".into())]
    );
    assert_eq!(m[0].samples[0].value, 1.0);
    assert!(m[1].samples[0].labels.is_empty());
    assert_eq!(m[2].samples[0].labels, vec![("q\"r".into(), "}".into())]);
    assert_eq!(m[2].samples[0].value, 3.0);
}

#[test]
fn files_are_ordered_by_the_bytes_of_their_names() {
    let mut odd = file("\u{fffd}.prom", "x{f=\"odd\"} 1\n");
    odd.utf8 = false;
    odd.bytes = b"\xff.prom".to_vec();
    let plain = file("\u{10000}.prom", "x{f=\"plain\"} 2\n");
    let out = evaluated(collect_from_dir(Some(vec![odd, plain])));
    let order: Vec<&str> = metric(&out, "x")
        .samples
        .iter()
        .map(|s| s.labels[0].1.as_str())
        .collect();
    assert_eq!(order, vec!["plain", "odd"]);
}
