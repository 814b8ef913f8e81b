//! Built-in metric collectors.
//!
//! Each submodule is about one logical metric source (`/proc/loadavg`,
//! `/proc/meminfo`, the `uname` system call, and so on): it says where to read,
//! and turns what came of reading into metrics. Collectors are cheap to
//! construct and stateless; the same instance handles every scrape.

pub mod cpu;
pub mod diskstats;
pub mod filesystem;
pub mod hwmon;
pub mod loadavg;
pub mod meminfo;
pub mod netdev;
pub mod netstat;
pub mod pressure;
pub mod sockstat;
pub mod stat;
pub mod textfile;
pub mod thermal_zone;
pub mod time;
pub mod uname;
pub mod vmstat;

use vstd::prelude::*;

verus! {

/// The built-in collectors.
#[derive(Debug, Clone, Copy, PartialEq, Eq, Structural)]
pub enum BuiltIn {
    Cpu,
    Diskstats,
    Filesystem,
    Hwmon,
    Loadavg,
    Meminfo,
    Netdev,
    Netstat,
    Pressure,
    Sockstat,
    Stat,
    Textfile,
    ThermalZone,
    Time,
    Uname,
    Vmstat,
}

impl BuiltIn {
    /// The name of the collector.
    pub open spec fn id(self) -> Seq<char> {
        match self {
            BuiltIn::Cpu => "cpu"@,
            BuiltIn::Diskstats => "diskstats"@,
            BuiltIn::Filesystem => "filesystem"@,
            BuiltIn::Hwmon => "hwmon"@,
            BuiltIn::Loadavg => "loadavg"@,
            BuiltIn::Meminfo => "meminfo"@,
            BuiltIn::Netdev => "netdev"@,
            BuiltIn::Netstat => "netstat"@,
            BuiltIn::Pressure => "pressure"@,
            BuiltIn::Sockstat => "sockstat"@,
            BuiltIn::Stat => "stat"@,
            BuiltIn::Textfile => "textfile"@,
            BuiltIn::ThermalZone => "thermal_zone"@,
            BuiltIn::Time => "time"@,
            BuiltIn::Uname => "uname"@,
            BuiltIn::Vmstat => "vmstat"@,
        }
    }

    /// The name of the collector.
    pub fn name(&self) -> (r: &'static str)
        ensures
            r@ == self.id(),
    {
        match self {
            BuiltIn::Cpu => cpu::CpuCollector.name(),
            BuiltIn::Diskstats => diskstats::DiskstatsCollector.name(),
            BuiltIn::Filesystem => filesystem::FilesystemCollector.name(),
            BuiltIn::Hwmon => hwmon::HwmonCollector.name(),
            BuiltIn::Loadavg => loadavg::LoadavgCollector.name(),
            BuiltIn::Meminfo => meminfo::MeminfoCollector.name(),
            BuiltIn::Netdev => netdev::NetdevCollector.name(),
            BuiltIn::Netstat => netstat::NetstatCollector.name(),
            BuiltIn::Pressure => pressure::PressureCollector.name(),
            BuiltIn::Sockstat => sockstat::SockstatCollector.name(),
            BuiltIn::Stat => stat::StatCollector.name(),
            BuiltIn::Textfile => textfile::TextfileCollector.name(),
            BuiltIn::ThermalZone => thermal_zone::ThermalZoneCollector.name(),
            BuiltIn::Time => time::TimeCollector.name(),
            BuiltIn::Uname => uname::UnameCollector.name(),
            BuiltIn::Vmstat => vmstat::VmstatCollector.name(),
        }
    }
}

/// Returns every collector registered by default. Order is significant only
/// for the output ordering of metric families.
pub fn all() -> (r: Vec<BuiltIn>)
    ensures
        r@ == seq![
            BuiltIn::Cpu,
            BuiltIn::Filesystem,
            BuiltIn::Loadavg,
            BuiltIn::Meminfo,
            BuiltIn::Stat,
            BuiltIn::Netstat,
            BuiltIn::Pressure,
            BuiltIn::Sockstat,
            BuiltIn::Uname,
            BuiltIn::Vmstat,
        ],
{
    vec![
        BuiltIn::Cpu,
        BuiltIn::Filesystem,
        BuiltIn::Loadavg,
        BuiltIn::Meminfo,
        BuiltIn::Stat,
        BuiltIn::Netstat,
        BuiltIn::Pressure,
        BuiltIn::Sockstat,
        BuiltIn::Uname,
        BuiltIn::Vmstat,
    ]
}

} // verus!
