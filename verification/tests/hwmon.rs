use merlion_node_exporter_rs::collectors::hwmon::{
    clean_metric_name, collect_from_root, explode_sensor_filename, hwmon_chip_label, sanitize_utf8,
    wanted, HwmonChip, HwmonCollector, SensorFile,
};
use merlion_node_exporter_rs::metric::{Metric, MetricType, Reading, Sample, Scale, Value};
use merlion_node_exporter_rs::source::Listing;
use merlion_node_exporter_rs::Config;

/// The number that a value stands for.
fn number(v: &Value) -> f64 {
    let r = match &v.reading {
        Reading::Unsigned(n) => *n as f64,
        Reading::Signed(n) => *n as f64,
        Reading::Clock { secs, nanos } => *secs as f64 + *nanos as f64 / 1e9,
        Reading::Span {
            seconds,
            nanoseconds,
        } => *seconds as f64 + f64::from(*nanoseconds) / 1e9,
        Reading::Decimal(text) => text.parse().unwrap(),
        Reading::NotANumber => f64::NAN,
        Reading::Infinity => f64::INFINITY,
        Reading::NegativeInfinity => f64::NEG_INFINITY,
    };
    match v.scale {
        Scale::Unit => r,
        Scale::Times(n) => r * n as f64,
        Scale::TimesThousandth => r * 0.001,
        Scale::Over(n) => r / n as f64,
        Scale::OnePlusOver(n) => 1.0 + r / n as f64,
    }
}

/// The families with the numbers that their values stand for.
fn evaluated(metrics: Vec<Metric<Value>>) -> Vec<Metric<f64>> {
    metrics
        .into_iter()
        .map(|m| Metric {
            name: m.name,
            help: m.help,
            mtype: m.mtype,
            samples: m
                .samples
                .into_iter()
                .map(|s| Sample {
                    value: number(&s.value),
                    labels: s.labels,
                })
                .collect(),
        })
        .collect()
}

/// A chip with a `name` file and the given attribute files.
fn make_hwmon(idx: usize, name: &str, files: &[(&str, &str)]) -> HwmonChip {
    HwmonChip {
        name: Some(name.into()),
        ..bare_hwmon(idx, files)
    }
}

/// A chip without a `name` file and without a `device` link.
fn bare_hwmon(idx: usize, files: &[(&str, &str)]) -> HwmonChip {
    HwmonChip {
        dir: format!("hwmon{idx}"),
        dir_bytes: format!("hwmon{idx}").into(),
        device: None,
        name: None,
        files: Some(
            files
                .iter()
                .map(|(name, contents)| SensorFile {
                    name: name.to_string(),
                    contents: Some(contents.to_string()),
                })
                .collect(),
        ),
        device_files: Vec::new(),
    }
}

/// The families of the chips.
fn families(chips: Vec<HwmonChip>) -> Vec<Metric<f64>> {
    evaluated(collect_from_root("/sys/class/hwmon", Listing::Entries(chips)).unwrap())
}

fn family<'a>(metrics: &'a [Metric<f64>], name: &str) -> &'a Metric<f64> {
    metrics
        .iter()
        .find(|m| m.name == name)
        .unwrap_or_else(|| panic!("family {name} not found"))
}

#[test]
fn explode_filename_simple() {
    assert_eq!(
        explode_sensor_filename("temp1_input"),
        Some(("temp", 1, "input"))
    );
    assert_eq!(explode_sensor_filename("in0_max"), Some(("in", 0, "max")));
    assert_eq!(
        explode_sensor_filename("fan2_label"),
        Some(("fan", 2, "label"))
    );
}

#[test]
fn explode_filename_no_property() {
    // bare type+id with no underscore — e.g. some intrusion files
    assert_eq!(explode_sensor_filename("temp1"), Some(("temp", 1, "")));
}

#[test]
fn explode_filename_no_id() {
    // type spans the underscore when there's no digit run between
    // segments. Upstream regex: type=[^0-9]+ matches "update_interval"
    // greedily, leaving id="" and property="".
    assert_eq!(
        explode_sensor_filename("update_interval"),
        Some(("update_interval", 0, ""))
    );
}

#[test]
fn explode_filename_rejects_pure_digits() {
    assert_eq!(explode_sensor_filename("123"), None);
}

#[test]
fn clean_metric_name_lowercases_and_substitutes() {
    assert_eq!(clean_metric_name("CoreTemp"), "coretemp");
    assert_eq!(clean_metric_name("nct-6779.f"), "nct_6779_f");
    assert_eq!(clean_metric_name("__weird__"), "weird");
}

#[test]
fn missing_root_returns_empty_not_error() {
    let metrics = collect_from_root("/nope", Listing::NotFound).unwrap();
    assert!(metrics.is_empty());
}

#[test]
fn parses_temp_voltage_fan_fixture() {
    let chip = make_hwmon(
        0,
        "coretemp",
        &[
            ("temp1_input", "42000"), // 42.0 °C
            ("temp1_max", "85000"),
            ("temp1_label", "Package id 0"),
            ("in0_input", "1200"),  // 1.2 V
            ("fan1_input", "3500"), // 3500 RPM
            ("fan1_min", "1000"),
        ],
    );

    let metrics = families(vec![chip]);

    // node_hwmon_temp_celsius — both input and max get this name (with
    // different help) — actually, only `_input` triggers the simple
    // `_celsius` suffix; `_max` becomes `node_hwmon_temp_max_celsius`.
    let temp_input = metrics
        .iter()
        .find(|m| m.name == "node_hwmon_temp_celsius")
        .expect("temp celsius family present");
    assert!((temp_input.samples[0].value - 42.0).abs() < 1e-9);
    assert_eq!(temp_input.samples[0].labels[0].0, "chip");
    assert_eq!(temp_input.samples[0].labels[0].1, "coretemp");
    assert_eq!(temp_input.samples[0].labels[1].0, "sensor");
    assert_eq!(temp_input.samples[0].labels[1].1, "temp1");

    let temp_max = metrics
        .iter()
        .find(|m| m.name == "node_hwmon_temp_max_celsius")
        .expect("temp max present");
    assert!((temp_max.samples[0].value - 85.0).abs() < 1e-9);

    let voltage = metrics
        .iter()
        .find(|m| m.name == "node_hwmon_in_volts")
        .expect("voltage family present");
    assert!((voltage.samples[0].value - 1.2).abs() < 1e-9);

    let fan_rpm = metrics
        .iter()
        .find(|m| m.name == "node_hwmon_fan_rpm")
        .expect("fan rpm family present");
    // `_input` is the bare `_rpm`-suffixed family.
    assert_eq!(fan_rpm.samples.len(), 1);
    assert!((fan_rpm.samples[0].value - 3500.0).abs() < 1e-9);

    let fan_min_rpm = metrics
        .iter()
        .find(|m| m.name == "node_hwmon_fan_min_rpm")
        .expect("fan min rpm family present");
    assert!((fan_min_rpm.samples[0].value - 1000.0).abs() < 1e-9);

    // info-style label metric
    let label = metrics
        .iter()
        .find(|m| m.name == "node_hwmon_sensor_label")
        .expect("sensor_label present");
    assert!((label.samples[0].value - 1.0).abs() < f64::EPSILON);
    let lab = &label.samples[0].labels;
    assert!(lab.iter().any(|(k, v)| k == "label" && v == "Package id 0"));

    // chip_names annotation
    let chip_names = metrics
        .iter()
        .find(|m| m.name == "node_hwmon_chip_names")
        .expect("chip_names annotation present");
    assert!(
        chip_names.samples[0]
            .labels
            .iter()
            .any(|(k, v)| k == "chip_name" && v == "coretemp")
    );
}

#[test]
fn skips_directory_without_name() {
    // hwmon0 with no name file and no device symlink. Upstream would error
    // here; we skip silently.
    let chip = bare_hwmon(0, &[("temp1_input", "50000")]);

    // We DO produce a metric, because the fallback derives the chip
    // label from the directory name "hwmon0". This matches upstream's
    // preference-3 behaviour.
    let metrics = families(vec![chip]);
    let celsius = metrics
        .iter()
        .find(|m| m.name == "node_hwmon_temp_celsius")
        .expect("temp present even without name file");
    assert_eq!(celsius.samples[0].labels[0].1, "hwmon0");

    // But no node_hwmon_chip_names should be emitted — that one
    // requires a readable `name` file.
    assert!(metrics.iter().all(|m| m.name != "node_hwmon_chip_names"));
}

#[test]
fn skips_truly_empty_directory() {
    // hwmon0 with neither name, device, nor any recognised sensor files.
    let chip = bare_hwmon(0, &[("garbage_file", "nope")]);

    let metrics = families(vec![chip]);
    // Only sensor families would have been emitted; with no recognised
    // files, there are none.
    assert!(
        metrics.iter().all(
            |m| m.name != "node_hwmon_chip_names" && !m.name.starts_with("node_hwmon_temp")
        )
    );
}

#[test]
fn ignores_malformed_numeric_content() {
    let chip = make_hwmon(
        0,
        "fakechip",
        &[("temp1_input", "not a number"), ("temp1_max", "75000")],
    );

    let metrics = families(vec![chip]);
    // temp1_input is unparseable → no _celsius sample for that;
    // _max still parses fine, named node_hwmon_temp_max_celsius.
    let max = metrics
        .iter()
        .find(|m| m.name == "node_hwmon_temp_max_celsius")
        .expect("temp_max_celsius present");
    assert_eq!(max.samples.len(), 1);
    assert!((max.samples[0].value - 75.0).abs() < 1e-9);

    // And no plain node_hwmon_temp_celsius (since input was garbage).
    assert!(metrics.iter().all(|m| m.name != "node_hwmon_temp_celsius"));
}

#[test]
fn unrecognised_sensor_types_skipped() {
    let chip = make_hwmon(
        0,
        "fakechip",
        &[
            ("bogus1_input", "100"),
            ("name", "fakechip"), // no attribute file
            ("temp1_input", "30000"),
        ],
    );

    let metrics = families(vec![chip]);
    // The bogus type doesn't appear anywhere.
    assert!(
        metrics
            .iter()
            .all(|m| !m.name.starts_with("node_hwmon_bogus"))
    );
    // But temp1 is there.
    assert!(metrics.iter().any(|m| m.name == "node_hwmon_temp_celsius"));
}

#[test]
fn energy_is_counter_with_microjoule_conversion() {
    let chip = make_hwmon(
        0,
        "rapl",
        &[
            ("energy1_input", "2500000"), // 2.5 J
        ],
    );

    let metrics = families(vec![chip]);
    let energy = metrics
        .iter()
        .find(|m| m.name == "node_hwmon_energy_joule_total")
        .expect("energy_joule_total present");
    assert_eq!(energy.mtype, MetricType::Counter);
    assert!((energy.samples[0].value - 2.5).abs() < 1e-9);
}

#[test]
fn explode_filename_at_the_edges() {
    assert_eq!(explode_sensor_filename(""), None);
    assert_eq!(explode_sensor_filename("temp1x"), None);
    assert_eq!(explode_sensor_filename("temp1_"), None);
    assert_eq!(explode_sensor_filename("temp99999999999_input"), None);
    assert_eq!(explode_sensor_filename("temp1_é"), Some(("temp", 1, "é")));
    assert_eq!(explode_sensor_filename("temp1_a\nb"), None);
    // The type gives way where what follows it would not match otherwise.
    assert_eq!(explode_sensor_filename("in_3v"), Some(("in", 0, "3v")));
    assert_eq!(explode_sensor_filename("a_b_3v"), Some(("a_b", 0, "3v")));
    assert_eq!(explode_sensor_filename("in_3_v"), Some(("in_", 3, "v")));
    assert_eq!(explode_sensor_filename("_3v"), None);
    assert_eq!(explode_sensor_filename("in_99999999999v"), Some(("in", 0, "99999999999v")));
}

#[test]
fn only_known_attribute_files_are_wanted() {
    assert!(wanted("temp1_input"));
    assert!(wanted("update_interval"));
    assert!(!wanted("bogus1_input"));
    assert!(!wanted("name"));
}

#[test]
fn unit_suffixes_and_conversions() {
    let chip = make_hwmon(
        0,
        "c",
        &[
            ("curr1_input", "1500"),
            ("cpu0_vid", "1100"),
            ("power1_average", "3000000"),
            ("power1_accuracy", "500000"),
            ("power1_average_interval", "250"),
            ("humidity1_input", "250000"),
            ("fan1_target", "900"),
            ("fan1_div", "4"),
            ("pwm1_enable", "2"),
            ("temp1_type", "4"),
            ("temp1_alarm", "1"),
            ("temp1_beep", "1"),
            ("intrusion0_alarm", "0"),
        ],
    );
    let metrics = families(vec![chip]);
    let value = |name: &str| family(&metrics, name).samples[0].value;
    assert_eq!(value("node_hwmon_curr_amps"), 1500.0 * 0.001);
    assert_eq!(value("node_hwmon_cpu_vid_volts"), 1100.0 * 0.001);
    assert_eq!(value("node_hwmon_power_average_watt"), 3.0);
    assert_eq!(value("node_hwmon_power_accuracy"), 0.5);
    assert_eq!(value("node_hwmon_power_average_interval_seconds"), 0.25);
    assert_eq!(value("node_hwmon_humidity"), 0.25);
    assert_eq!(value("node_hwmon_fan_target_rpm"), 900.0);
    assert_eq!(value("node_hwmon_fan_div"), 4.0);
    assert_eq!(value("node_hwmon_pwm_enable"), 2.0);
    assert_eq!(value("node_hwmon_temp_type"), 4.0);
    assert_eq!(value("node_hwmon_temp_alarm"), 1.0);
    assert_eq!(value("node_hwmon_temp_beep_enabled"), 1.0);
    assert_eq!(value("node_hwmon_intrusion_alarm"), 0.0);
    assert_eq!(
        family(&metrics, "node_hwmon_fan_div").help,
        "Hardware monitor fan element div"
    );
    assert_eq!(
        family(&metrics, "node_hwmon_temp_alarm").help,
        "Hardware sensor alarm status (temp)"
    );
    assert_eq!(
        family(&metrics, "node_hwmon_curr_amps").help,
        "Hardware monitor for current (input)"
    );
}

#[test]
fn single_settings() {
    let chip = make_hwmon(
        0,
        "c",
        &[
            ("beep_enable", "1\n"),
            ("vrm", "82\n"),
            ("update_interval", "1500\n"),
        ],
    );
    let metrics = families(vec![chip]);
    let value = |name: &str| family(&metrics, name).samples[0].value;
    assert_eq!(value("node_hwmon_beep_enabled"), 1.0);
    assert_eq!(value("node_hwmon_voltage_regulator_version"), 82.0);
    assert_eq!(value("node_hwmon_update_interval_seconds"), 1500.0 * 0.001);
    assert_eq!(
        family(&metrics, "node_hwmon_beep_enabled").samples[0].labels[1].1,
        "beep_enable0"
    );
}

#[test]
fn frequencies_need_a_label() {
    let without = families(vec![make_hwmon(0, "g", &[("freq1_input", "5000000")])]);
    assert!(without.iter().all(|m| !m.name.contains("freq")));
    let with = families(vec![make_hwmon(
        0,
        "g",
        &[("freq1_input", "5000000"), ("freq1_label", "SCLK")],
    )]);
    let freq = family(&with, "node_hwmon_freq_freq_mhz");
    assert_eq!(freq.samples[0].value, 5.0);
    assert_eq!(freq.samples[0].labels[1].1, "sclk");
}

#[test]
fn a_bare_reading_renames_the_input() {
    let metrics = families(vec![make_hwmon(
        0,
        "c",
        &[("temp1", "1000"), ("temp1_input", "2000")],
    )]);
    assert_eq!(
        family(&metrics, "node_hwmon_temp_celsius").help,
        "Hardware monitor for temperature (input)"
    );
    assert_eq!(family(&metrics, "node_hwmon_temp_celsius").samples[0].value, 1.0);
    assert_eq!(
        family(&metrics, "node_hwmon_temp_input_celsius").samples[0].value,
        2.0
    );
}

#[test]
fn chips_come_in_the_order_of_their_names() {
    let metrics = families(vec![
        make_hwmon(2, "two", &[("temp1_input", "2000")]),
        make_hwmon(10, "ten", &[("temp1_input", "10000")]),
        make_hwmon(1, "one", &[("temp1_input", "1000")]),
    ]);
    let chips: Vec<&str> = family(&metrics, "node_hwmon_temp_celsius")
        .samples
        .iter()
        .map(|s| s.labels[0].1.as_str())
        .collect();
    assert_eq!(chips, vec!["one", "ten", "two"]);
}

#[test]
fn a_broken_chip_does_not_blank_the_rest() {
    let mut broken = make_hwmon(0, "broken", &[]);
    broken.files = None;
    let whole = families(vec![broken, make_hwmon(1, "ok", &[("in0_input", "1")])]);
    let rest = families(vec![make_hwmon(1, "ok", &[("in0_input", "1")])]);
    let names = |ms: &[Metric<f64>]| ms.iter().map(|m| m.name.clone()).collect::<Vec<_>>();
    assert_eq!(names(&whole), names(&rest));
    assert_eq!(names(&rest), vec!["node_hwmon_chip_names", "node_hwmon_in_volts"]);
}

#[test]
fn chip_labels() {
    let mut chip = make_hwmon(0, "k10temp\n", &[]);
    assert_eq!(hwmon_chip_label(&chip).unwrap(), "k10temp");
    chip.device = Some(("0000:00:18.3".into(), "pci0000:00".into()));
    assert_eq!(hwmon_chip_label(&chip).unwrap(), "pci0000:00_0000:00:18_3");
    chip.device = Some(("i5k_amb.0".into(), "".into()));
    assert_eq!(hwmon_chip_label(&chip).unwrap(), "i5k_amb_0");
    chip.device = Some(("--".into(), "platform".into()));
    assert_eq!(hwmon_chip_label(&chip).unwrap(), "k10temp");
    chip.name = Some(" \n".into());
    assert_eq!(hwmon_chip_label(&chip).unwrap(), "hwmon0");
    chip.dir = "--".into();
    assert_eq!(hwmon_chip_label(&chip), None);
}

#[test]
fn the_device_directory_counts_too() {
    let mut chip = make_hwmon(0, "c", &[("temp1_input", "1000")]);
    chip.device_files = vec![
        SensorFile {
            name: "temp1_input".into(),
            contents: Some("2000\n\n".into()),
        },
        SensorFile {
            name: "temp2_input".into(),
            contents: None,
        },
    ];
    let metrics = families(vec![chip]);
    let temp = family(&metrics, "node_hwmon_temp_celsius");
    assert_eq!(temp.samples.len(), 1);
    assert_eq!(temp.samples[0].value, 2.0);
}

#[test]
fn control_characters_in_labels_are_replaced() {
    assert_eq!(sanitize_utf8("a\tb\u{1f}é"), "a\u{FFFD}b\u{FFFD}é");
    assert_eq!(clean_metric_name("É:x"), ":x");
    assert_eq!(clean_metric_name(&clean_metric_name("--A b--")), "a_b");
}

#[test]
fn every_family_comes_once() {
    let metrics = families(vec![
        make_hwmon(0, "a", &[("temp1_input", "1"), ("temp2_input", "2"), ("temp1_max", "3")]),
        make_hwmon(1, "b", &[("temp1_max", "4"), ("temp1_input", "5")]),
    ]);
    let mut names: Vec<&str> = metrics.iter().map(|m| m.name.as_str()).collect();
    let before = names.len();
    names.sort_unstable();
    names.dedup();
    assert_eq!(names.len(), before);
}

#[test]
fn hwmon_collector_lists_sys_class_hwmon() {
    let cfg = Config::default();
    assert_eq!(HwmonCollector.name(), "hwmon");
    assert_eq!(HwmonCollector.path(&cfg), "/sys/class/hwmon");
    assert!(HwmonCollector.collect(&cfg, Listing::NotFound).unwrap().is_empty());
    let message =
        |chips: Listing<HwmonChip>| HwmonCollector.collect(&cfg, chips).unwrap_err().message;
    assert_eq!(message(Listing::Failed), "reading /sys/class/hwmon");
    assert_eq!(message(Listing::Broken), "iterating /sys/class/hwmon");
}
