//! `uname(2)`: kernel / hostname / architecture identifier metric.
//!
//! Emits a single `node_uname_info{...} 1` info-style metric with one label
//! per `utsname` field.

use vstd::prelude::*;

use crate::error::Error;
use crate::metric;
use crate::metric::{Metric, MetricType, MetricView, Sample, SampleView, Value, ValueView};
use crate::quantity;

verus! {

/// What `uname(2)` tells.
#[derive(Debug, Clone)]
pub struct UnameInfo {
    pub sysname: String,
    pub nodename: String,
    pub release: String,
    pub version: String,
    pub machine: String,
    pub domainname: String,
}

/// The info metric.
pub open spec fn uname_metric(info: UnameInfo) -> MetricView<ValueView> {
    MetricView::new(
        "node_uname_info"@,
        "Labeled system information as provided by the uname system call."@,
        MetricType::Gauge,
    ).with_sample(
        SampleView::new(ValueView::unsigned(1)).with_label(
            "sysname"@,
            info.sysname@,
        ).with_label("release"@, info.release@).with_label("version"@, info.version@).with_label(
            "machine"@,
            info.machine@,
        ).with_label("nodename"@, info.nodename@).with_label("domainname"@, info.domainname@),
    )
}

/// What collecting gives; `None` stands for a failed system call.
pub open spec fn uname_outcome(info: Option<UnameInfo>) -> Result<
    Seq<MetricView<ValueView>>,
    Seq<char>,
> {
    match info {
        Some(info) => Ok(seq![uname_metric(info)]),
        None => Err("uname syscall failed"@),
    }
}

pub struct UnameCollector;

impl UnameCollector {
    pub fn name(&self) -> (r: &'static str)
        ensures
            r@ == "uname"@,
    {
        "uname"
    }

    /// The metrics, given what the system call told, or `None` where it
    /// failed.
    pub fn collect(&self, info: &Option<UnameInfo>) -> (r: Result<Vec<Metric<Value>>, Error>)
        ensures
            metric::outcome(r) == uname_outcome(*info),
    {
        match info {
            Some(info) => {
                let sample = Sample::new(Value::unsigned(1)).with_label(
                    "sysname",
                    info.sysname.as_str(),
                ).with_label("release", info.release.as_str()).with_label(
                    "version",
                    info.version.as_str(),
                ).with_label("machine", info.machine.as_str()).with_label(
                    "nodename",
                    info.nodename.as_str(),
                ).with_label("domainname", info.domainname.as_str());
                let m = Metric::new(
                    "node_uname_info",
                    "Labeled system information as provided by the uname system call.",
                    MetricType::Gauge,
                ).with_sample(sample);
                let out = vec![m];
                assert(metric::metric_views(out@) =~= seq![m@]);
                Ok(out)
            },
            None => Err(Error::new("uname syscall failed".to_owned())),
        }
    }
}

/// Every field that `uname(2)` tells is a label of its own on one sample, which
/// is 1.
pub proof fn every_field_has_its_label(info: UnameInfo)
    ensures
        uname_outcome(Some(info)) is Ok,
        uname_outcome(None) is Err,
        ({
            let families = uname_outcome(Some(info))->Ok_0;
            &&& families.len() == 1
            &&& families[0].name == "node_uname_info"@
            &&& families[0].mtype == MetricType::Gauge
            &&& families[0].samples.len() == 1
            &&& families[0].samples[0].labels == seq![
                ("sysname"@, info.sysname@),
                ("release"@, info.release@),
                ("version"@, info.version@),
                ("machine"@, info.machine@),
                ("nodename"@, info.nodename@),
                ("domainname"@, info.domainname@),
            ]
            &&& quantity::stands_for(families[0].samples[0].value, 1, 1)
        }),
{
    assert(uname_metric(info).samples[0].labels =~= seq![
        ("sysname"@, info.sysname@),
        ("release"@, info.release@),
        ("version"@, info.version@),
        ("machine"@, info.machine@),
        ("nodename"@, info.nodename@),
        ("domainname"@, info.domainname@),
    ]);
}

} // verus!
