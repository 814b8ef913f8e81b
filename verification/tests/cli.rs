use clap::{Arg, Command};
use merlion_node_exporter_rs::cli::Cli;

/// The settings that the command line `args` gives.
fn parse_from(args: [&str; 3]) -> Cli {
    let matches = Command::new("merlion-node-exporter")
        .arg(Arg::new("listen_address").long("web.listen-address"))
        .get_matches_from(args);
    Cli {
        listen_address: matches
            .get_one::<String>("listen_address")
            .unwrap()
            .clone(),
        telemetry_path: "/metrics".into(),
        procfs: "/proc".into(),
        sysfs: "/sys".into(),
        rootfs: "/".into(),
        textfile_directory: None,
        no_collector: Vec::new(),
        only_collectors: Vec::new(),
    }
}

#[test]
fn resolves_colon_prefixed_address() {
    let cli = parse_from(["bin", "--web.listen-address", ":9100"]);
    assert_eq!(cli.resolved_listen_address(), "0.0.0.0:9100");
}

#[test]
fn leaves_qualified_address_intact() {
    let cli = parse_from(["bin", "--web.listen-address", "127.0.0.1:9100"]);
    assert_eq!(cli.resolved_listen_address(), "127.0.0.1:9100");
}

#[test]
fn resolving_a_resolved_address_changes_nothing() {
    let mut cli = parse_from(["bin", "--web.listen-address", ":1"]);
    cli.listen_address = cli.resolved_listen_address();
    assert_eq!(cli.resolved_listen_address(), "0.0.0.0:1");
    cli.listen_address = String::new();
    assert_eq!(cli.resolved_listen_address(), "");
}

#[test]
fn the_configuration_takes_the_paths_over() {
    let mut cli = parse_from(["bin", "--web.listen-address", ":1"]);
    cli.procfs = "/host/proc".into();
    cli.textfile_directory = Some("/t".into());
    let cfg = cli.config();
    assert_eq!(cfg.procfs, "/host/proc");
    assert_eq!(cfg.sysfs, "/sys");
    assert_eq!(cfg.rootfs, "/");
    assert_eq!(cfg.textfile_directory.as_deref(), Some("/t"));
}
