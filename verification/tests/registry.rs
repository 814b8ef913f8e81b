use merlion_node_exporter_rs::collectors;
use merlion_node_exporter_rs::registry::{assemble, build_registry, Run};
use merlion_node_exporter_rs::metric::{Metric, MetricType, Reading, Value};
use merlion_node_exporter_rs::{Collector, Config, Error, Registry};

/// A collector that gives one family of its own name, or fails.
struct Fixed {
    name: &'static str,
    fails: bool,
}

impl Collector for Fixed {
    fn name(&self) -> &'static str {
        self.name
    }

    fn collect(&self, cfg: &Config) -> Result<Vec<Metric<Value>>, Error> {
        if self.fails {
            Err(Error::new("broken".into()))
        } else {
            Ok(vec![Metric::single(
                self.name,
                &cfg.procfs,
                MetricType::Gauge,
                Value::unsigned(7),
            )])
        }
    }
}

fn fixed(name: &'static str, fails: bool) -> Box<dyn Collector> {
    Box::new(Fixed { name, fails })
}

fn unsigned(v: &Value) -> u64 {
    match v.reading {
        Reading::Unsigned(n) => n,
        _ => panic!("not an unsigned number"),
    }
}

#[test]
fn a_scrape_reports_on_every_collector() {
    let mut registry = Registry::new();
    registry.register(fixed("a", false));
    registry.register(fixed("b", true));
    registry.register(fixed("c", false));
    assert_eq!(registry.enabled_names(), vec!["a", "b", "c"]);
    let metrics = registry.gather(&Config::default());
    let names: Vec<&str> = metrics.iter().map(|m| m.name.as_str()).collect();
    assert_eq!(
        names,
        vec![
            "a",
            "c",
            "node_scrape_collector_success",
            "node_scrape_collector_duration_seconds",
        ]
    );
    assert_eq!(metrics[0].help, "/proc");
    let success: Vec<(String, u64)> = metrics[2]
        .samples
        .iter()
        .map(|s| (s.labels[0].1.clone(), unsigned(&s.value)))
        .collect();
    assert_eq!(
        success,
        vec![("a".into(), 1), ("b".into(), 0), ("c".into(), 1)]
    );
    assert_eq!(metrics[3].samples.len(), 3);
    for s in &metrics[3].samples {
        assert_eq!(s.labels[0].0, "collector");
        assert!(matches!(
            s.value.reading,
            Reading::Span { seconds, nanoseconds } if seconds < 60 && nanoseconds < 1_000_000_000
        ));
    }
}

#[test]
fn an_empty_registry_reports_on_nothing() {
    let metrics = Registry::default().gather(&Config::default());
    assert_eq!(metrics.len(), 2);
    assert!(metrics.iter().all(|m| m.samples.is_empty()));
}

#[test]
fn runs_are_put_together() {
    let family = |name: &str| Metric::single(name, "h", MetricType::Gauge, Value::unsigned(1));
    let metrics = assemble(vec![
        Run {
            name: "x",
            result: Ok(vec![family("x1"), family("x2")]),
            secs: 1,
            nanos: 500_000_000,
        },
        Run {
            name: "y",
            result: Err(Error::new("no".into())),
            secs: 0,
            nanos: 1,
        },
    ]);
    let names: Vec<&str> = metrics.iter().map(|m| m.name.as_str()).collect();
    assert_eq!(
        names,
        vec![
            "x1",
            "x2",
            "node_scrape_collector_success",
            "node_scrape_collector_duration_seconds",
        ]
    );
    assert_eq!(
        metrics[2].help,
        "node_exporter: Whether a collector succeeded."
    );
    assert_eq!(
        metrics[3].help,
        "node_exporter: Duration of a collector scrape."
    );
    assert_eq!(unsigned(&metrics[2].samples[0].value), 1);
    assert_eq!(unsigned(&metrics[2].samples[1].value), 0);
    assert!(matches!(
        metrics[3].samples[0].value.reading,
        Reading::Span { seconds: 1, nanoseconds: 500_000_000 }
    ));
}

#[test]
fn collectors_are_selected_by_name() {
    let all = || vec![fixed("a", false), fixed("b", false), fixed("c", false)];
    let names = |only: &[&str], disabled: &[&str]| {
        let only: Vec<String> = only.iter().map(|s| s.to_string()).collect();
        let disabled: Vec<String> = disabled.iter().map(|s| s.to_string()).collect();
        build_registry(all(), &only, &disabled).enabled_names()
    };
    assert_eq!(names(&[], &[]), vec!["a", "b", "c"]);
    assert_eq!(names(&["c", "a"], &[]), vec!["a", "c"]);
    assert_eq!(names(&[], &["b", "z"]), vec!["a", "c"]);
    assert_eq!(names(&["a", "b"], &["b"]), vec!["a"]);
    assert!(names(&["z"], &[]).is_empty());
}

#[test]
fn the_default_collectors() {
    let names: Vec<&str> = collectors::all().iter().map(|c| c.name()).collect();
    assert_eq!(
        names,
        vec![
            "cpu",
            "filesystem",
            "loadavg",
            "meminfo",
            "stat",
            "netstat",
            "pressure",
            "sockstat",
            "uname",
            "vmstat",
        ]
    );
}
