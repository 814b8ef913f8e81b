//! System clock and NTP/PLL state.
//!
//! - `node_time_seconds` (gauge): wall-clock seconds since the Unix epoch, as
//!   `clock_gettime(CLOCK_REALTIME)` tells them.
//! - `node_time_zone_offset_seconds{time_zone}` (gauge): the offset of local
//!   time from UTC. The label is the abbreviation of the zone (`PDT`, `UTC`,
//!   `JST`).
//! - The `node_timex_*` families: phase-locked-loop state, pulse-per-second
//!   statistics and sync status, as `adjtimex(2)` reports them.

use vstd::prelude::*;

use crate::error::Error;
use crate::metric;
use crate::metric::{Metric, MetricType, MetricView, Sample, SampleView, Scale, Value, ValueView};
use crate::quantity;

verus! {

/// `1e6 * 65536`: the kernel scales PPM frequency values by 2^16. See NOTES in
/// `adjtimex(2)`.
pub const PPM16_FRAC: u64 = 65_536_000_000;

pub const NANO: u64 = 1_000_000_000;

pub const MICRO: u64 = 1_000_000;

/// The status bit of a clock that is not synchronised.
pub const STA_UNSYNC: i32 = 0x40;

/// The status bit of a clock that counts in nanoseconds.
pub const STA_NANO: i32 = 0x2000;

/// The number of families that the state of the clock comes to.
pub const TIMEX_METRIC_COUNT: usize = 17;

/// The state of the clock, as `adjtimex(2)` reports it.
#[derive(Debug, Clone, Copy)]
pub struct Timex {
    pub offset: i64,
    pub freq: i64,
    pub maxerror: i64,
    pub esterror: i64,
    pub status: i32,
    pub constant: i64,
    pub tick: i64,
    pub ppsfreq: i64,
    pub jitter: i64,
    pub shift: i32,
    pub stabil: i64,
    pub jitcnt: i64,
    pub calcnt: i64,
    pub errcnt: i64,
    pub stbcnt: i64,
    pub tai: i32,
}

/// What the offset and the jitter are divided by to get seconds.
pub open spec fn time_unit(status: i32) -> u64 {
    if status & STA_NANO != 0 {
        NANO
    } else {
        MICRO
    }
}

/// The families that the state of the clock comes to.
pub open spec fn timex_metrics(t: Timex) -> Seq<MetricView<ValueView>> {
    let divisor = time_unit(t.status);
    seq![
        MetricView::single(
            "node_timex_sync_status"@,
            "Is clock synchronized to a reliable server (1 = yes, 0 = no)."@,
            MetricType::Gauge,
            ValueView::flag(t.status & STA_UNSYNC == 0),
        ),
        MetricView::single(
            "node_timex_offset_seconds"@,
            "Time offset in between local system and reference clock."@,
            MetricType::Gauge,
            ValueView::signed(t.offset).scaled(Scale::Over(divisor)),
        ),
        MetricView::single(
            "node_timex_frequency_adjustment_ratio"@,
            "Local clock frequency adjustment."@,
            MetricType::Gauge,
            ValueView::signed(t.freq).scaled(Scale::OnePlusOver(PPM16_FRAC)),
        ),
        MetricView::single(
            "node_timex_maxerror_seconds"@,
            "Maximum error in seconds."@,
            MetricType::Gauge,
            ValueView::signed(t.maxerror).scaled(Scale::Over(MICRO)),
        ),
        MetricView::single(
            "node_timex_estimated_error_seconds"@,
            "Estimated error in seconds."@,
            MetricType::Gauge,
            ValueView::signed(t.esterror).scaled(Scale::Over(MICRO)),
        ),
        MetricView::single(
            "node_timex_status"@,
            "Value of the status array bits."@,
            MetricType::Gauge,
            ValueView::signed(t.status as i64),
        ),
        MetricView::single(
            "node_timex_loop_time_constant"@,
            "Phase-locked loop time constant."@,
            MetricType::Gauge,
            ValueView::signed(t.constant),
        ),
        MetricView::single(
            "node_timex_tick_seconds"@,
            "Seconds between clock ticks."@,
            MetricType::Gauge,
            ValueView::signed(t.tick).scaled(Scale::Over(MICRO)),
        ),
        MetricView::single(
            "node_timex_pps_frequency_hertz"@,
            "Pulse per second frequency."@,
            MetricType::Gauge,
            ValueView::signed(t.ppsfreq).scaled(Scale::Over(PPM16_FRAC)),
        ),
        MetricView::single(
            "node_timex_pps_jitter_seconds"@,
            "Pulse per second jitter."@,
            MetricType::Gauge,
            ValueView::signed(t.jitter).scaled(Scale::Over(divisor)),
        ),
        MetricView::single(
            "node_timex_pps_shift_seconds"@,
            "Pulse per second interval duration."@,
            MetricType::Gauge,
            ValueView::signed(t.shift as i64),
        ),
        MetricView::single(
            "node_timex_pps_stability_hertz"@,
            "Pulse per second stability, average of recent frequency changes."@,
            MetricType::Gauge,
            ValueView::signed(t.stabil).scaled(Scale::Over(PPM16_FRAC)),
        ),
        MetricView::single(
            "node_timex_pps_jitter_total"@,
            "Pulse per second count of jitter limit exceeded events."@,
            MetricType::Counter,
            ValueView::signed(t.jitcnt),
        ),
        MetricView::single(
            "node_timex_pps_calibration_total"@,
            "Pulse per second count of calibration intervals."@,
            MetricType::Counter,
            ValueView::signed(t.calcnt),
        ),
        MetricView::single(
            "node_timex_pps_error_total"@,
            "Pulse per second count of calibration errors."@,
            MetricType::Counter,
            ValueView::signed(t.errcnt),
        ),
        MetricView::single(
            "node_timex_pps_stability_exceeded_total"@,
            "Pulse per second count of stability limit exceeded events."@,
            MetricType::Counter,
            ValueView::signed(t.stbcnt),
        ),
        MetricView::single(
            "node_timex_tai_offset_seconds"@,
            "International Atomic Time (TAI) offset."@,
            MetricType::Gauge,
            ValueView::signed(t.tai as i64),
        ),
    ]
}

/// Converts the state of the clock into its families.
pub fn compute_timex_metrics(t: &Timex) -> (r: Vec<Metric<Value>>)
    ensures
        metric::metric_views(r@) == timex_metrics(*t),
        r@.len() == TIMEX_METRIC_COUNT,
{
    let divisor: u64 = if t.status & STA_NANO != 0 {
        NANO
    } else {
        MICRO
    };
    let out = vec![
        Metric::single(
            "node_timex_sync_status",
            "Is clock synchronized to a reliable server (1 = yes, 0 = no).",
            MetricType::Gauge,
            Value::flag(t.status & STA_UNSYNC == 0),
        ),
        Metric::single(
            "node_timex_offset_seconds",
            "Time offset in between local system and reference clock.",
            MetricType::Gauge,
            Value::signed(t.offset).scaled(Scale::Over(divisor)),
        ),
        Metric::single(
            "node_timex_frequency_adjustment_ratio",
            "Local clock frequency adjustment.",
            MetricType::Gauge,
            Value::signed(t.freq).scaled(Scale::OnePlusOver(PPM16_FRAC)),
        ),
        Metric::single(
            "node_timex_maxerror_seconds",
            "Maximum error in seconds.",
            MetricType::Gauge,
            Value::signed(t.maxerror).scaled(Scale::Over(MICRO)),
        ),
        Metric::single(
            "node_timex_estimated_error_seconds",
            "Estimated error in seconds.",
            MetricType::Gauge,
            Value::signed(t.esterror).scaled(Scale::Over(MICRO)),
        ),
        Metric::single(
            "node_timex_status",
            "Value of the status array bits.",
            MetricType::Gauge,
            Value::signed(t.status as i64),
        ),
        Metric::single(
            "node_timex_loop_time_constant",
            "Phase-locked loop time constant.",
            MetricType::Gauge,
            Value::signed(t.constant),
        ),
        Metric::single(
            "node_timex_tick_seconds",
            "Seconds between clock ticks.",
            MetricType::Gauge,
            Value::signed(t.tick).scaled(Scale::Over(MICRO)),
        ),
        Metric::single(
            "node_timex_pps_frequency_hertz",
            "Pulse per second frequency.",
            MetricType::Gauge,
            Value::signed(t.ppsfreq).scaled(Scale::Over(PPM16_FRAC)),
        ),
        Metric::single(
            "node_timex_pps_jitter_seconds",
            "Pulse per second jitter.",
            MetricType::Gauge,
            Value::signed(t.jitter).scaled(Scale::Over(divisor)),
        ),
        Metric::single(
            "node_timex_pps_shift_seconds",
            "Pulse per second interval duration.",
            MetricType::Gauge,
            Value::signed(t.shift as i64),
        ),
        Metric::single(
            "node_timex_pps_stability_hertz",
            "Pulse per second stability, average of recent frequency changes.",
            MetricType::Gauge,
            Value::signed(t.stabil).scaled(Scale::Over(PPM16_FRAC)),
        ),
        Metric::single(
            "node_timex_pps_jitter_total",
            "Pulse per second count of jitter limit exceeded events.",
            MetricType::Counter,
            Value::signed(t.jitcnt),
        ),
        Metric::single(
            "node_timex_pps_calibration_total",
            "Pulse per second count of calibration intervals.",
            MetricType::Counter,
            Value::signed(t.calcnt),
        ),
        Metric::single(
            "node_timex_pps_error_total",
            "Pulse per second count of calibration errors.",
            MetricType::Counter,
            Value::signed(t.errcnt),
        ),
        Metric::single(
            "node_timex_pps_stability_exceeded_total",
            "Pulse per second count of stability limit exceeded events.",
            MetricType::Counter,
            Value::signed(t.stbcnt),
        ),
        Metric::single(
            "node_timex_tai_offset_seconds",
            "International Atomic Time (TAI) offset.",
            MetricType::Gauge,
            Value::signed(t.tai as i64),
        ),
    ];
    assert(metric::metric_views(out@) =~= timex_metrics(*t));
    out
}

/// What collecting gives. `realtime` is the clock's seconds and nanoseconds,
/// `zone` the local time zone and its offset, and `timex` the state of the
/// clock; each is missing where it could not be read. Only the clock itself is
/// needed.
pub open spec fn time_outcome(
    realtime: Option<(i64, i64)>,
    zone: Option<(Seq<char>, i64)>,
    timex: Option<Timex>,
) -> Result<Seq<MetricView<ValueView>>, Seq<char>> {
    match realtime {
        None => Err("clock_gettime(CLOCK_REALTIME) failed"@),
        Some((secs, nanos)) => {
            let clock = seq![
                MetricView::single(
                    "node_time_seconds"@,
                    "System time in seconds since epoch (1970)."@,
                    MetricType::Gauge,
                    ValueView::clock(secs, nanos),
                ),
            ];
            let offset = match zone {
                Some((name, offset)) => seq![
                    MetricView::new(
                        "node_time_zone_offset_seconds"@,
                        "System time zone offset in seconds."@,
                        MetricType::Gauge,
                    ).with_sample(
                        SampleView::new(ValueView::signed(offset)).with_label("time_zone"@, name),
                    ),
                ],
                None => seq![],
            };
            let state = match timex {
                Some(t) => timex_metrics(t),
                None => seq![],
            };
            Ok(clock + offset + state)
        },
    }
}

/// What a time zone and its offset say. A zone may lack an abbreviation, but
/// one whose abbreviation is empty counts for none.
pub open spec fn zone_view(zone: Option<(Option<String>, i64)>) -> Option<(Seq<char>, i64)> {
    match zone {
        Some((Some(name), offset)) => if name@.len() == 0 {
            None
        } else {
            Some((name@, offset))
        },
        Some((None, offset)) => Some(("(unknown)"@, offset)),
        None => None,
    }
}

/// The name that a time zone goes by, and its offset.
fn zone_of(zone: &Option<(Option<String>, i64)>) -> (r: Option<(&str, i64)>)
    ensures
        zone_view(*zone) == match r {
            Some((name, offset)) => Some((name@, offset)),
            None => None,
        },
{
    match zone {
        Some((Some(name), offset)) => {
            let name = name.as_str();
            if name.is_empty() {
                None
            } else {
                Some((name, *offset))
            }
        },
        Some((None, offset)) => Some(("(unknown)", *offset)),
        None => None,
    }
}

pub struct TimeCollector;

impl TimeCollector {
    pub fn name(&self) -> (r: &'static str)
        ensures
            r@ == "time"@,
    {
        "time"
    }

    /// The metrics, given what came of asking the system.
    pub fn collect(
        &self,
        realtime: Option<(i64, i64)>,
        zone: &Option<(Option<String>, i64)>,
        timex: &Option<Timex>,
    ) -> (r: Result<Vec<Metric<Value>>, Error>)
        ensures
            metric::outcome(r) == time_outcome(realtime, zone_view(*zone), *timex),
    {
        let (secs, nanos) = match realtime {
            Some(now) => now,
            None => {
                return Err(Error::new("clock_gettime(CLOCK_REALTIME) failed".to_owned()));
            },
        };
        let mut out: Vec<Metric<Value>> = Vec::new();
        let clock = Metric::single(
            "node_time_seconds",
            "System time in seconds since epoch (1970).",
            MetricType::Gauge,
            Value::clock(secs, nanos),
        );
        out.push(clock);
        assert(metric::metric_views(out@) =~= seq![clock@]);
        let ghost first = metric::metric_views(out@);
        match zone_of(zone) {
            Some((label, offset)) => {
                let m = Metric::new(
                    "node_time_zone_offset_seconds",
                    "System time zone offset in seconds.",
                    MetricType::Gauge,
                ).with_sample(Sample::new(Value::signed(offset)).with_label("time_zone", label));
                out.push(m);
                assert(metric::metric_views(out@) =~= first + seq![m@]);
            },
            None => {
                assert(first =~= first + seq![]);
            },
        }
        let ghost second = metric::metric_views(out@);
        match timex {
            Some(t) => {
                let mut state = compute_timex_metrics(t);
                out.append(&mut state);
                assert(metric::metric_views(out@) =~= second + timex_metrics(*t));
            },
            None => {
                assert(second =~= second + seq![]);
            },
        }
        Ok(out)
    }
}

/// The state of the clock comes to all its families or to none.
pub proof fn timex_is_all_or_nothing(
    realtime: (i64, i64),
    zone: Option<(Seq<char>, i64)>,
    timex: Option<Timex>,
)
    ensures
        time_outcome(Some(realtime), zone, timex) is Ok,
        time_outcome(Some(realtime), zone, timex)->Ok_0.len() == 1 + (if zone is Some {
            1int
        } else {
            0
        }) + (if timex is Some {
            TIMEX_METRIC_COUNT as int
        } else {
            0
        }),
{
}

/// Each field of the clock's state has a family of its own, with one sample
/// without labels: errors and ticks in microseconds, frequencies in parts per
/// million with sixteen bits behind the point, offset and jitter in nanoseconds
/// where the status says so and otherwise in microseconds.
pub proof fn every_clock_field_has_its_family(t: Timex, k: int)
    requires
        0 <= k < 17,
    ensures
        ({
            let families = timex_metrics(t);
            let unit: int = if t.status & 0x2000 != 0 {
                1_000_000_000
            } else {
                1_000_000
            };
            let numbers = seq![
                if t.status & 0x40 == 0 {
                    1int
                } else {
                    0
                },
                t.offset as int,
                65_536_000_000 + t.freq,
                t.maxerror as int,
                t.esterror as int,
                t.status as int,
                t.constant as int,
                t.tick as int,
                t.ppsfreq as int,
                t.jitter as int,
                t.shift as int,
                t.stabil as int,
                t.jitcnt as int,
                t.calcnt as int,
                t.errcnt as int,
                t.stbcnt as int,
                t.tai as int,
            ];
            let units = seq![
                1int,
                unit,
                65_536_000_000,
                1_000_000,
                1_000_000,
                1,
                1,
                1_000_000,
                65_536_000_000,
                unit,
                1,
                65_536_000_000,
                1,
                1,
                1,
                1,
                1,
            ];
            let names = seq![
                "node_timex_sync_status"@,
                "node_timex_offset_seconds"@,
                "node_timex_frequency_adjustment_ratio"@,
                "node_timex_maxerror_seconds"@,
                "node_timex_estimated_error_seconds"@,
                "node_timex_status"@,
                "node_timex_loop_time_constant"@,
                "node_timex_tick_seconds"@,
                "node_timex_pps_frequency_hertz"@,
                "node_timex_pps_jitter_seconds"@,
                "node_timex_pps_shift_seconds"@,
                "node_timex_pps_stability_hertz"@,
                "node_timex_pps_jitter_total"@,
                "node_timex_pps_calibration_total"@,
                "node_timex_pps_error_total"@,
                "node_timex_pps_stability_exceeded_total"@,
                "node_timex_tai_offset_seconds"@,
            ];
            &&& families.len() == 17
            &&& families[k].name == names[k]
            &&& families[k].mtype == if 12 <= k <= 15 {
                MetricType::Counter
            } else {
                MetricType::Gauge
            }
            &&& families[k].samples.len() == 1
            &&& families[k].samples[0].labels.len() == 0
            &&& quantity::stands_for(families[k].samples[0].value, numbers[k], units[k])
        }),
{
    let families = timex_metrics(t);
    if t.status & 0x2000 != 0 {
        assert(quantity::stands_for(families[1].samples[0].value, t.offset as int, 1_000_000_000));
        assert(quantity::stands_for(families[9].samples[0].value, t.jitter as int, 1_000_000_000));
    } else {
        assert(quantity::stands_for(families[1].samples[0].value, t.offset as int, 1_000_000));
        assert(quantity::stands_for(families[9].samples[0].value, t.jitter as int, 1_000_000));
    }
    assert(quantity::stands_for(
        families[2].samples[0].value,
        65_536_000_000 + t.freq,
        65_536_000_000,
    ));
}

/// The clock comes first, in seconds with its nanoseconds as a fraction; then the
/// offset of the time zone, under the zone's name, where it is known; then the
/// state of the clock, where it is known. Without the clock collecting fails.
pub proof fn every_part_of_the_time_is_exported(
    secs: i64,
    nanos: i64,
    zone: Option<(Seq<char>, i64)>,
    timex: Option<Timex>,
)
    ensures
        time_outcome(None, zone, timex) is Err,
        ({
            let outcome = time_outcome(Some((secs, nanos)), zone, timex);
            let families = outcome->Ok_0;
            let n: int = if zone is Some {
                2
            } else {
                1
            };
            &&& outcome is Ok
            &&& families[0].name == "node_time_seconds"@
            &&& families[0].samples.len() == 1
            &&& families[0].samples[0].labels.len() == 0
            &&& quantity::stands_for(
                families[0].samples[0].value,
                secs * 1_000_000_000 + nanos,
                1_000_000_000,
            )
            &&& zone is Some ==> families.len() > 1 && families[1].name
                == "node_time_zone_offset_seconds"@ && families[1].samples.len() == 1
                && families[1].samples[0].labels == seq![("time_zone"@, (zone->0).0)]
                && quantity::stands_for(families[1].samples[0].value, (zone->0).1 as int, 1)
            &&& timex is None ==> families.len() == n
            &&& timex is Some ==> families.len() == n + 17 && forall|k: int|
                0 <= k < 17 ==> families[n + k] == #[trigger] timex_metrics(timex->0)[k]
        }),
{
    let families = time_outcome(Some((secs, nanos)), zone, timex)->Ok_0;
    if zone is Some {
        assert(families[1].samples[0].labels =~= seq![("time_zone"@, (zone->0).0)]);
    }
}

/// A time zone goes by its abbreviation, with its own offset; one that has none
/// goes by a word for it, and one whose abbreviation is empty is left out.
pub proof fn zones_go_by_their_abbreviation(name: String, offset: i64)
    ensures
        name@.len() > 0 ==> zone_view(Some((Some(name), offset))) == Some((name@, offset)),
        name@.len() == 0 ==> zone_view(Some((Some(name), offset))) is None,
        zone_view(Some((None, offset))) == Some(("(unknown)"@, offset)),
        zone_view(None) is None,
{
}

} // verus!
