use merlion_node_exporter_rs::collectors::filesystem::{
    collect_metrics, distinct_mounts, parse_mounts, unescape_octal, FilesystemCollector, FsStats, MountEntry,
};
use merlion_node_exporter_rs::source::FileRead;
use merlion_node_exporter_rs::metric::{Metric, Reading, Sample, Scale, Value};
use merlion_node_exporter_rs::Config;

/// The number that a value stands for.
fn number(v: &Value) -> f64 {
    let r = match &v.reading {
        Reading::Unsigned(n) => *n as f64,
        Reading::Signed(n) => *n as f64,
        Reading::Clock { secs, nanos } => *secs as f64 + *nanos as f64 / 1e9,
        Reading::Span {
            seconds,
            nanoseconds,
        } => *seconds as f64 + f64::from(*nanoseconds) / 1e9,
        Reading::Decimal(text) => text.parse().unwrap(),
        Reading::NotANumber => f64::NAN,
        Reading::Infinity => f64::INFINITY,
        Reading::NegativeInfinity => f64::NEG_INFINITY,
    };
    match v.scale {
        Scale::Unit => r,
        Scale::Times(n) => r * n as f64,
        Scale::TimesThousandth => r * 0.001,
        Scale::Over(n) => r / n as f64,
        Scale::OnePlusOver(n) => 1.0 + r / n as f64,
    }
}

/// The families with the numbers that their values stand for.
fn evaluated(metrics: Vec<Metric<Value>>) -> Vec<Metric<f64>> {
    metrics
        .into_iter()
        .map(|m| Metric {
            name: m.name,
            help: m.help,
            mtype: m.mtype,
            samples: m
                .samples
                .into_iter()
                .map(|s| Sample {
                    value: number(&s.value),
                    labels: s.labels,
                })
                .collect(),
        })
        .collect()
}

const FIXTURE: &str = "\
/dev/root / ext4 rw,relatime,discard 0 0
tmpfs /run tmpfs rw,nosuid,nodev,size=1626288k,mode=755 0 0
cgroup2 /sys/fs/cgroup cgroup2 rw,nosuid,nodev,noexec,relatime,nsdelegate 0 0
";

#[test]
fn filesystem_parses_happy_path() {
    let mounts = parse_mounts(FIXTURE).unwrap();
    assert_eq!(mounts.len(), 3);

    assert_eq!(mounts[0].device, "/dev/root");
    assert_eq!(mounts[0].mountpoint, "/");
    assert_eq!(mounts[0].fstype, "ext4");
    assert_eq!(mounts[0].options, "rw,relatime,discard");
    assert!(!mounts[0].readonly());

    assert_eq!(mounts[1].device, "tmpfs");
    assert_eq!(mounts[1].mountpoint, "/run");
    assert_eq!(mounts[1].fstype, "tmpfs");

    assert_eq!(mounts[2].device, "cgroup2");
    assert_eq!(mounts[2].mountpoint, "/sys/fs/cgroup");
    assert_eq!(mounts[2].fstype, "cgroup2");
}

#[test]
fn unescapes_octal_spaces_in_mountpoint() {
    // A mountpoint with a literal space — fstab(5) encodes it as \040.
    let raw = "/dev/sdb1 /mnt/my\\040volume ext4 ro,relatime 0 0\n";
    let mounts = parse_mounts(raw).unwrap();
    assert_eq!(mounts.len(), 1);
    assert_eq!(mounts[0].mountpoint, "/mnt/my volume");
    assert!(mounts[0].readonly(), "ro option => readonly() true");
}

#[test]
fn unescapes_tabs_newlines_and_backslashes() {
    // \011 = tab, \012 = newline, \134 = backslash.
    let raw = "src /a\\011b\\012c\\134d ext4 rw 0 0\n";
    let mounts = parse_mounts(raw).unwrap();
    assert_eq!(mounts[0].mountpoint, "/a\tb\nc\\d");
}

#[test]
fn leaves_non_octal_backslashes_alone() {
    // `\9` is not a 3-digit octal escape; pass through verbatim.
    let raw = "src /weird\\9path ext4 rw 0 0\n";
    let mounts = parse_mounts(raw).unwrap();
    assert_eq!(mounts[0].mountpoint, "/weird\\9path");
}

#[test]
fn filesystem_skips_blank_lines() {
    let raw = "\n/dev/sda1 / ext4 rw 0 0\n\n";
    let mounts = parse_mounts(raw).unwrap();
    assert_eq!(mounts.len(), 1);
}

#[test]
fn filesystem_rejects_truncated_row() {
    // Only two fields — missing fstype and options.
    let err = parse_mounts("/dev/sda1 /\n").unwrap_err().message;
    assert!(err.contains("missing fstype"), "{err}");
}

#[test]
fn rejects_row_missing_options() {
    let err = parse_mounts("/dev/sda1 / ext4\n").unwrap_err().message;
    assert!(err.contains("missing options"), "{err}");
}

#[test]
fn readonly_detects_ro_among_other_options() {
    let raw = "/dev/sr0 /media iso9660 nosuid,nodev,ro,relatime 0 0\n";
    let mounts = parse_mounts(raw).unwrap();
    assert!(mounts[0].readonly());
}

#[test]
fn readonly_does_not_match_relatime_or_other_substrings() {
    // "relatime" contains the substring "ro" but is not the option "ro".
    let raw = "/dev/sda1 / ext4 rw,relatime 0 0\n";
    let mounts = parse_mounts(raw).unwrap();
    assert!(!mounts[0].readonly());
}

#[test]
fn collect_metrics_emits_seven_families_per_unique_mount() {
    // statvfs fails on every mount: every row gets device_error=1, but we
    // still want all seven metric families and the right number of samples.
    let mounts = vec![
        MountEntry {
            device: "/dev/nonexistent-a".into(),
            mountpoint: "/__nope_a".into(),
            fstype: "ext4".into(),
            options: "rw".into(),
        },
        MountEntry {
            device: "/dev/nonexistent-b".into(),
            mountpoint: "/__nope_b".into(),
            fstype: "tmpfs".into(),
            options: "ro,relatime".into(),
        },
    ];
    let metrics = evaluated(collect_metrics(&mounts, &[None, None]));
    assert_eq!(
        metrics.len(),
        7,
        "size/free/avail/files/files_free/ro/deverr"
    );

    let names: Vec<&str> = metrics.iter().map(|m| m.name.as_str()).collect();
    assert_eq!(
        names,
        vec![
            "node_filesystem_size_bytes",
            "node_filesystem_free_bytes",
            "node_filesystem_avail_bytes",
            "node_filesystem_files",
            "node_filesystem_files_free",
            "node_filesystem_readonly",
            "node_filesystem_device_error",
        ]
    );

    // Every metric carries one sample per unique mount.
    for m in &metrics {
        assert_eq!(m.samples.len(), 2, "{} sample count", m.name);
        for s in &m.samples {
            let label_names: Vec<&str> = s.labels.iter().map(|(k, _)| k.as_str()).collect();
            assert_eq!(label_names, vec!["device", "mountpoint", "fstype"]);
        }
    }

    // The readonly metric reflects the option string.
    let ro = metrics
        .iter()
        .find(|m| m.name == "node_filesystem_readonly")
        .unwrap();
    assert!((ro.samples[0].value - 0.0).abs() < f64::EPSILON);
    assert!((ro.samples[1].value - 1.0).abs() < f64::EPSILON);
}

#[test]
fn collect_metrics_deduplicates_identical_triples() {
    let m = MountEntry {
        device: "tmpfs".into(),
        mountpoint: "/run".into(),
        fstype: "tmpfs".into(),
        options: "rw".into(),
    };
    let metrics = collect_metrics(&[m.clone(), m], &[None]);
    for fam in &metrics {
        assert_eq!(fam.samples.len(), 1, "{} should be deduped", fam.name);
    }
}

/// The metrics of a mount table whose every mount answers, and of one that
/// could not be read.
#[test]
fn collect_against_real_config_does_not_panic() {
    let cfg = Config::default();
    assert_eq!(FilesystemCollector.name(), "filesystem");
    assert_eq!(FilesystemCollector.path(&cfg), "/proc/mounts");
    let read = FileRead::Contents(FIXTURE.into());
    let stats = [Some(FsStats {
        frsize: 4096,
        blocks: 1000,
        bfree: 500,
        bavail: 400,
        files: 70,
        ffree: 60,
    }); 3];
    if let Ok(metrics) = FilesystemCollector.collect(&cfg, &read, &stats) {
        assert_eq!(metrics.len(), 7);
        assert!(metrics.iter().all(|fam| !fam.samples.is_empty()));
    }
    let err = FilesystemCollector
        .collect(&cfg, &FileRead::NotFound, &[])
        .unwrap_err();
    assert_eq!(err.message, "reading /proc/mounts");
}

#[test]
fn statistics_come_in_bytes_and_nodes() {
    let cfg = Config::default();
    let read = FileRead::Contents("/dev/root / ext4 ro 0 0\n/dev/sdb /b ext4 rw 0 0\n".into());
    let stats = [
        Some(FsStats {
            frsize: 4096,
            blocks: 1000,
            bfree: 500,
            bavail: 400,
            files: 70,
            ffree: 60,
        }),
        None,
    ];
    let metrics = evaluated(FilesystemCollector.collect(&cfg, &read, &stats).unwrap());
    let first: Vec<f64> = metrics.iter().map(|m| m.samples[0].value).collect();
    assert_eq!(
        first,
        vec![4_096_000.0, 2_048_000.0, 1_638_400.0, 70.0, 60.0, 1.0, 0.0]
    );
    let second: Vec<f64> = metrics.iter().map(|m| m.samples[1].value).collect();
    assert_eq!(second, vec![0.0, 0.0, 0.0, 0.0, 0.0, 0.0, 1.0]);
}

#[test]
fn statistics_that_are_missing_count_as_failed() {
    let mounts = parse_mounts(FIXTURE).unwrap();
    let metrics = evaluated(collect_metrics(&mounts, &[]));
    assert!(metrics[6].samples.iter().all(|s| s.value == 1.0));
}

#[test]
fn the_first_row_of_a_mount_counts() {
    let mounts = parse_mounts("a /m ext4 rw 0 0\nb /m ext4 rw 0 0\na /m ext4 ro 0 0\n").unwrap();
    let distinct = distinct_mounts(&mounts);
    assert_eq!(distinct, vec![mounts[0].clone(), mounts[1].clone()]);
}

#[test]
fn filesystem_errors_are_spelled_out() {
    let message = |raw: &str| parse_mounts(raw).unwrap_err().message;
    assert_eq!(message(" \n"), "filesystem: line 1 missing device");
    assert_eq!(message("\na\n"), "filesystem: line 2 missing mountpoint");
    assert_eq!(message("a b\n"), "filesystem: line 1 missing fstype");
    assert_eq!(message("a b c\n"), "filesystem: line 1 missing options");
}

#[test]
fn octal_escapes_at_the_edges() {
    let decode = |s: &str| unescape_octal(&s.chars().collect::<Vec<char>>());
    assert_eq!(decode("\\040"), " ");
    assert_eq!(decode("\\04"), "\\04");
    assert_eq!(decode("a\\"), "a\\");
    assert_eq!(decode("é\\134ü"), "é\\ü");
    assert_eq!(decode("\\351"), "é");
    assert_eq!(decode("\\134040"), "\\040");
}

/// The kernel's way of writing a path.
fn as_the_kernel_writes(path: &str) -> String {
    path.chars()
        .map(|c| match c {
            ' ' | '\t' | '\n' | '\\' => format!("\\{:03o}", c as u32),
            other => other.to_string(),
        })
        .collect()
}

#[test]
fn mount_paths_are_read_back() {
    for path in ["/", "/a b", "/tab\there", "/line\nfeed", "\\", "/ü\\040", ""] {
        let written: Vec<char> = as_the_kernel_writes(path).chars().collect();
        assert_eq!(unescape_octal(&written), path);
    }
}

#[test]
fn mounts_are_asked_about_beneath_the_root() {
    let cfg = Config::new("/proc".into(), "/sys".into(), "/host".into());
    let mounts = parse_mounts("/dev/sda1 /mnt/my\\040disk ext4 rw 0 0\n").unwrap();
    assert_eq!(
        FilesystemCollector.stat_path(&cfg, &mounts[0]),
        "/host/mnt/my disk"
    );
    assert_eq!(
        FilesystemCollector.stat_path(&Config::default(), &mounts[0]),
        "/mnt/my disk"
    );
}
