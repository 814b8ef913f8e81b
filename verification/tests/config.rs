use merlion_node_exporter_rs::Config;

#[test]
fn proc_path_strips_proc_prefix() {
    let c = Config::new("/tmp/procfs".into(), "/sys".into(), "/".into());
    assert_eq!(c.proc_path("/proc/meminfo"), "/tmp/procfs/meminfo");
    assert_eq!(c.proc_path("meminfo"), "/tmp/procfs/meminfo");
}

#[test]
fn sys_path_strips_sys_prefix() {
    let c = Config::new("/proc".into(), "/tmp/sysfs".into(), "/".into());
    assert_eq!(c.sys_path("/sys/class/thermal"), "/tmp/sysfs/class/thermal");
}

#[test]
fn paths_at_the_edges() {
    let c = Config::new("/p/".into(), "".into(), "/".into());
    assert_eq!(c.proc_path("/proc/stat"), "/p/stat");
    assert_eq!(c.sys_path("/sys/a"), "a");
    assert_eq!(c.proc_path("/proc/proc/x"), "/p/proc/x");
    assert_eq!(c.proc_path("/proc/processes"), "/p/processes");
    assert_eq!(c.proc_path("/processes"), "/p/processes");
    assert_eq!(c.proc_path("processes"), "/p/processes");
    assert_eq!(c.sys_path("/sys/sys/x"), "x");
    assert_eq!(c.sys_path("/system/x"), "tem/x");
    assert_eq!(c.sys_path("system/x"), "system/x");
    assert_eq!(c.proc_path("/proc"), "/p/");
    assert_eq!(c.proc_path("/proc/"), "/p/");
    assert_eq!(c.proc_path("//stat"), "/p/stat");
}

#[test]
fn paths_of_the_host_are_beneath_its_root() {
    let c = Config::new("/proc".into(), "/sys".into(), "/host".into());
    assert_eq!(c.root_path("/home"), "/host/home");
    assert_eq!(c.root_path("/"), "/host");
    assert_eq!(c.root_path("relative"), "relative");
    let c = Config::default();
    assert_eq!(c.root_path("/home/a"), "/home/a");
    assert_eq!(c.root_path("/"), "/");
}

#[test]
fn the_defaults_are_the_host_itself() {
    let c = Config::default();
    assert_eq!(c.procfs, "/proc");
    assert_eq!(c.sysfs, "/sys");
    assert_eq!(c.rootfs, "/");
    assert_eq!(c.textfile_directory, None);
    let c = c.with_textfile_directory(Some("/d".into()));
    assert_eq!(c.textfile_directory.as_deref(), Some("/d"));
}
