//! `/sys/class/thermal/{thermal_zone,cooling_device}*`: kernel thermal
//! framework metrics.
//!
//! Emits three metric families:
//!
//! - `node_thermal_zone_temp{zone, type}` gauge: zone temperature in degrees
//!   Celsius. The kernel reports millidegrees Celsius in
//!   `thermal_zone<N>/temp`.
//! - `node_cooling_device_cur_state{name, type}` gauge: current throttle
//!   state of the cooling device. Can legitimately be -1 (intel powerclamp).
//! - `node_cooling_device_max_state{name, type}` gauge: maximum throttle
//!   state of the cooling device.
//!
//! A malformed entry is skipped, so that the remaining ones still scrape.

use vstd::prelude::*;

use crate::config::Config;
use crate::error::Error;
use crate::metric;
use crate::metric::{Metric, MetricType, MetricView, Sample, SampleView, Scale, Value, ValueView};
use crate::number;
use crate::number::{only_digits, parse_i64, parse_u64};
use crate::order;
use crate::order::{sort, Ordered};
use crate::quantity;
use crate::rows;
use crate::source;
use crate::source::{broken_error, Listing};
use crate::text;
use crate::text::{chars_of, string_of, strip_prefix, trimmed};

verus! {

// -------------------------------------------------------------------- entries

/// An entry of `/sys/class/thermal`: its name and the contents of its
/// attributes, where they could be read.
#[derive(Debug, Clone)]
pub struct ThermalEntry {
    pub name: String,
    pub kind: Option<String>,
    pub policy: Option<String>,
    pub temp: Option<String>,
    pub cur_state: Option<String>,
    pub max_state: Option<String>,
}

/// What a [`ThermalEntry`] says.
pub struct EntryView {
    pub name: Seq<char>,
    pub kind: Option<Seq<char>>,
    pub policy: Option<Seq<char>>,
    pub temp: Option<Seq<char>>,
    pub cur_state: Option<Seq<char>>,
    pub max_state: Option<Seq<char>>,
}

impl View for ThermalEntry {
    type V = EntryView;

    open spec fn view(&self) -> EntryView {
        EntryView {
            name: self.name@,
            kind: text::opt_view(self.kind),
            policy: text::opt_view(self.policy),
            temp: text::opt_view(self.temp),
            cur_state: text::opt_view(self.cur_state),
            max_state: text::opt_view(self.max_state),
        }
    }
}

/// The digits that follow `prefix` in `name`, where nothing else does.
pub open spec fn index_after(name: Seq<char>, prefix: Seq<char>) -> Option<Seq<char>> {
    if text::starts(name, prefix) && number::is_digits(name.skip(prefix.len() as int)) {
        Some(name.skip(prefix.len() as int))
    } else {
        None
    }
}

/// The place of an entry in the order of output. An index past 64 bits comes
/// last.
pub open spec fn natural_index(index: Seq<char>) -> u64 {
    match number::u64_value(index) {
        Some(n) => n,
        None => u64::MAX,
    }
}

/// An entry and the index that its name ends in.
#[derive(Debug, Clone)]
pub struct Indexed {
    pub index: String,
    pub entry: ThermalEntry,
}

/// What an [`Indexed`] says.
pub struct IndexedView {
    pub index: Seq<char>,
    pub entry: EntryView,
}

impl View for Indexed {
    type V = IndexedView;

    open spec fn view(&self) -> IndexedView {
        IndexedView { index: self.index@, entry: self.entry@ }
    }
}

/// Reads the place of an entry off its index.
fn index_number(s: &str) -> (r: u64)
    ensures
        r == natural_index(s@),
{
    match parse_u64(chars_of(s).as_slice()) {
        Some(n) => n,
        None => u64::MAX,
    }
}

impl Ordered for Indexed {
    open spec fn less(a: IndexedView, b: IndexedView) -> bool {
        natural_index(a.index) < natural_index(b.index)
    }

    fn before(&self, other: &Self) -> (r: bool) {
        index_number(self.index.as_str()) < index_number(other.index.as_str())
    }
}

/// The entries whose names are `prefix` and a number.
pub open spec fn indexed(entries: Seq<EntryView>, prefix: Seq<char>) -> Seq<IndexedView>
    decreases entries.len(),
{
    if entries.len() == 0 {
        seq![]
    } else {
        let before = indexed(entries.drop_last(), prefix);
        match index_after(entries.last().name, prefix) {
            Some(index) => before.push(IndexedView { index, entry: entries.last() }),
            None => before,
        }
    }
}

/// The same in the order of their numbers.
pub open spec fn in_order(entries: Seq<EntryView>, prefix: Seq<char>) -> Seq<IndexedView> {
    order::sorted(indexed(entries, prefix), order::order_of::<Indexed>())
}

fn copy_opt(s: &Option<String>) -> (r: Option<String>)
    ensures
        text::opt_view(r) == text::opt_view(*s),
{
    match s {
        Some(s) => Some(s.as_str().to_owned()),
        None => None,
    }
}

fn copy_entry(e: &ThermalEntry) -> (r: ThermalEntry)
    ensures
        r@ == e@,
{
    ThermalEntry {
        name: e.name.as_str().to_owned(),
        kind: copy_opt(&e.kind),
        policy: copy_opt(&e.policy),
        temp: copy_opt(&e.temp),
        cur_state: copy_opt(&e.cur_state),
        max_state: copy_opt(&e.max_state),
    }
}

/// Picks the entries whose names are `prefix` and a number, in the order of
/// the numbers.
fn pick(entries: &Vec<ThermalEntry>, prefix: &str) -> (r: Vec<Indexed>)
    ensures
        order::views(r@) == in_order(order::views(entries@), prefix@),
{
    let ghost all = order::views(entries@);
    let mut out: Vec<Indexed> = Vec::new();
    let mut i: usize = 0;
    assert(order::views(out@) =~= seq![]);
    while i < entries.len()
        invariant
            i <= entries@.len(),
            all == order::views(entries@),
            order::views(out@) == indexed(all.take(i as int), prefix@),
        decreases entries@.len() - i,
    {
        proof {
            assert(all.take(i + 1).drop_last() =~= all.take(i as int));
            assert(all[i as int] == entries@[i as int]@);
        }
        let ghost before = order::views(out@);
        let name = chars_of(entries[i].name.as_str());
        match strip_prefix(name.as_slice(), prefix) {
            Some(index) => {
                if index.len() > 0 && only_digits(index) {
                    let e = Indexed { index: string_of(index), entry: copy_entry(&entries[i]) };
                    out.push(e);
                    assert(order::views(out@) =~= before.push(e@));
                }
            },
            None => {},
        }
        i = i + 1;
    }
    assert(all.take(all.len() as int) =~= all);
    sort(out)
}

// ----------------------------------------------------------------- attributes

/// The text of an attribute: sysfs files end in a line feed.
pub open spec fn attribute(raw: Option<Seq<char>>) -> Option<Seq<char>> {
    match raw {
        Some(raw) => Some(text::trim(raw)),
        None => None,
    }
}

/// The number of an attribute.
pub open spec fn int_attribute(raw: Option<Seq<char>>) -> Option<i64> {
    match raw {
        Some(raw) => number::i64_value(text::trim(raw)),
        None => None,
    }
}

fn read_trimmed(raw: &Option<String>) -> (r: Option<String>)
    ensures
        text::opt_view(r) == attribute(text::opt_view(*raw)),
{
    match raw {
        Some(raw) => Some(string_of(trimmed(chars_of(raw.as_str()).as_slice()))),
        None => None,
    }
}

fn read_int(raw: &Option<String>) -> (r: Option<i64>)
    ensures
        r == int_attribute(text::opt_view(*raw)),
{
    match raw {
        Some(raw) => parse_i64(trimmed(chars_of(raw.as_str()).as_slice())),
        None => None,
    }
}

/// A thermal zone.
#[derive(Debug, Clone)]
pub struct ThermalZone {
    pub zone_type: String,
    pub temp_millideg: i64,
}

/// A cooling device.
#[derive(Debug, Clone)]
pub struct CoolingDevice {
    pub cd_type: String,
    pub cur_state: i64,
    pub max_state: i64,
}

/// Whether a zone has the attributes that every zone has.
pub open spec fn is_zone(e: EntryView) -> bool {
    e.kind is Some && e.policy is Some && int_attribute(e.temp) is Some
}

/// Whether a cooling device has the attributes that every one has.
pub open spec fn is_cooling_device(e: EntryView) -> bool {
    e.kind is Some && int_attribute(e.max_state) is Some && int_attribute(e.cur_state) is Some
}

/// Reads a thermal zone. The policy must be there, but is not exported.
pub fn parse_zone(e: &ThermalEntry) -> (r: Option<ThermalZone>)
    ensures
        r is Some == is_zone(e@),
        r is Some ==> (r->0).zone_type@ == text::trim(e@.kind->0) && Some((r->0).temp_millideg)
            == int_attribute(e@.temp),
{
    match (read_trimmed(&e.kind), &e.policy, read_int(&e.temp)) {
        (Some(zone_type), Some(_), Some(temp_millideg)) => Some(
            ThermalZone { zone_type, temp_millideg },
        ),
        _ => None,
    }
}

/// Reads a cooling device.
pub fn parse_cooling_device(e: &ThermalEntry) -> (r: Option<CoolingDevice>)
    ensures
        r is Some == is_cooling_device(e@),
        r is Some ==> (r->0).cd_type@ == text::trim(e@.kind->0) && Some((r->0).cur_state)
            == int_attribute(e@.cur_state) && Some((r->0).max_state) == int_attribute(
            e@.max_state,
        ),
{
    match (read_trimmed(&e.kind), read_int(&e.max_state), read_int(&e.cur_state)) {
        (Some(cd_type), Some(max_state), Some(cur_state)) => Some(
            CoolingDevice { cd_type, cur_state, max_state },
        ),
        _ => None,
    }
}

// ------------------------------------------------------------------- families

/// Millidegrees in a degree.
pub const MILLI: u64 = 1000;

pub open spec fn zone_temp_family() -> MetricView<ValueView> {
    MetricView::new(
        "node_thermal_zone_temp"@,
        "Zone temperature in Celsius"@,
        MetricType::Gauge,
    )
}

pub open spec fn cur_state_family() -> MetricView<ValueView> {
    MetricView::new(
        "node_cooling_device_cur_state"@,
        "Current throttle state of the cooling device"@,
        MetricType::Gauge,
    )
}

pub open spec fn max_state_family() -> MetricView<ValueView> {
    MetricView::new(
        "node_cooling_device_max_state"@,
        "Maximum throttle state of the cooling device"@,
        MetricType::Gauge,
    )
}

/// A sample of a cooling device.
pub open spec fn device_sample(index: Seq<char>, kind: Seq<char>, n: i64) -> SampleView<ValueView> {
    SampleView::new(ValueView::signed(n)).with_label("name"@, index).with_label("type"@, kind)
}

/// The temperature of a zone.
pub open spec fn zone_temp() -> spec_fn(IndexedView) -> Seq<SampleView<ValueView>> {
    |z: IndexedView|
        if is_zone(z.entry) {
            seq![
                SampleView::new(
                    ValueView::signed(int_attribute(z.entry.temp)->0).scaled(Scale::Over(MILLI)),
                ).with_label("zone"@, z.index).with_label("type"@, text::trim(z.entry.kind->0)),
            ]
        } else {
            seq![]
        }
}

/// The current state of a cooling device.
pub open spec fn device_cur_state() -> spec_fn(IndexedView) -> Seq<SampleView<ValueView>> {
    |d: IndexedView|
        if is_cooling_device(d.entry) {
            seq![
                device_sample(
                    d.index,
                    text::trim(d.entry.kind->0),
                    int_attribute(d.entry.cur_state)->0,
                ),
            ]
        } else {
            seq![]
        }
}

/// The maximum state of a cooling device.
pub open spec fn device_max_state() -> spec_fn(IndexedView) -> Seq<SampleView<ValueView>> {
    |d: IndexedView|
        if is_cooling_device(d.entry) {
            seq![
                device_sample(
                    d.index,
                    text::trim(d.entry.kind->0),
                    int_attribute(d.entry.max_state)->0,
                ),
            ]
        } else {
            seq![]
        }
}

/// The three families.
pub open spec fn thermal_families(entries: Seq<EntryView>) -> Seq<MetricView<ValueView>> {
    let zones = in_order(entries, "thermal_zone"@);
    let devices = in_order(entries, "cooling_device"@);
    seq![
        zone_temp_family().with_samples(rows::per_row(zones, zone_temp())),
        cur_state_family().with_samples(rows::per_row(devices, device_cur_state())),
        max_state_family().with_samples(rows::per_row(devices, device_max_state())),
    ]
}

/// What collecting gives. Without `/sys/class/thermal` the families are there
/// but empty.
pub open spec fn thermal_outcome(root: Seq<char>, entries: Listing<ThermalEntry>) -> Result<
    Seq<MetricView<ValueView>>,
    Seq<char>,
> {
    match entries {
        Listing::Entries(entries) => Ok(thermal_families(order::views(entries@))),
        Listing::NotFound => Ok(seq![zone_temp_family(), cur_state_family(), max_state_family()]),
        Listing::Failed => Err("reading dir "@ + root),
        Listing::Broken => Err(source::broken(root)),
    }
}

fn new_zone_temp() -> (r: Metric<Value>)
    ensures
        r@ == zone_temp_family(),
{
    Metric::new("node_thermal_zone_temp", "Zone temperature in Celsius", MetricType::Gauge)
}

fn new_cur_state() -> (r: Metric<Value>)
    ensures
        r@ == cur_state_family(),
{
    Metric::new(
        "node_cooling_device_cur_state",
        "Current throttle state of the cooling device",
        MetricType::Gauge,
    )
}

fn new_max_state() -> (r: Metric<Value>)
    ensures
        r@ == max_state_family(),
{
    Metric::new(
        "node_cooling_device_max_state",
        "Maximum throttle state of the cooling device",
        MetricType::Gauge,
    )
}

fn zone_family(zones: &Vec<Indexed>) -> (r: Metric<Value>)
    ensures
        r@ == zone_temp_family().with_samples(
            rows::per_row(order::views(zones@), zone_temp()),
        ),
{
    let ghost all = order::views(zones@);
    let mut m = new_zone_temp();
    let mut i: usize = 0;
    assert(rows::per_row(all.take(0), zone_temp()) =~= seq![]);
    while i < zones.len()
        invariant
            i <= zones@.len(),
            all == order::views(zones@),
            m@ == zone_temp_family().with_samples(
                rows::per_row(all.take(i as int), zone_temp()),
            ),
        decreases zones@.len() - i,
    {
        let z = &zones[i];
        let ghost done = rows::per_row(all.take(i as int), zone_temp());
        proof {
            assert(all.take(i + 1).drop_last() =~= all.take(i as int));
            assert(all[i as int] == z@);
        }
        match parse_zone(&z.entry) {
            Some(zone) => {
                let s = Sample::new(
                    Value::signed(zone.temp_millideg).scaled(Scale::Over(MILLI)),
                ).with_label("zone", z.index.as_str()).with_label("type", zone.zone_type.as_str());
                m.push(s);
                assert(done.push(s@) =~= done + seq![s@]);
            },
            None => {
                assert(done =~= done + seq![]);
            },
        }
        i = i + 1;
    }
    assert(all.take(all.len() as int) =~= all);
    m
}

fn device_families(devices: &Vec<Indexed>) -> (r: (Metric<Value>, Metric<Value>))
    ensures
        r.0@ == cur_state_family().with_samples(
            rows::per_row(order::views(devices@), device_cur_state()),
        ),
        r.1@ == max_state_family().with_samples(
            rows::per_row(order::views(devices@), device_max_state()),
        ),
{
    let ghost all = order::views(devices@);
    let mut cur = new_cur_state();
    let mut max = new_max_state();
    let mut i: usize = 0;
    assert(rows::per_row(all.take(0), device_cur_state()) =~= seq![]);
    assert(rows::per_row(all.take(0), device_max_state()) =~= seq![]);
    while i < devices.len()
        invariant
            i <= devices@.len(),
            all == order::views(devices@),
            cur@ == cur_state_family().with_samples(
                rows::per_row(all.take(i as int), device_cur_state()),
            ),
            max@ == max_state_family().with_samples(
                rows::per_row(all.take(i as int), device_max_state()),
            ),
        decreases devices@.len() - i,
    {
        let d = &devices[i];
        let ghost cur_done = rows::per_row(all.take(i as int), device_cur_state());
        let ghost max_done = rows::per_row(all.take(i as int), device_max_state());
        proof {
            assert(all.take(i + 1).drop_last() =~= all.take(i as int));
            assert(all[i as int] == d@);
        }
        match parse_cooling_device(&d.entry) {
            Some(cd) => {
                let s = Sample::new(Value::signed(cd.cur_state)).with_label(
                    "name",
                    d.index.as_str(),
                ).with_label("type", cd.cd_type.as_str());
                cur.push(s);
                assert(cur_done.push(s@) =~= cur_done + seq![s@]);
                let s = Sample::new(Value::signed(cd.max_state)).with_label(
                    "name",
                    d.index.as_str(),
                ).with_label("type", cd.cd_type.as_str());
                max.push(s);
                assert(max_done.push(s@) =~= max_done + seq![s@]);
            },
            None => {
                assert(cur_done =~= cur_done + seq![]);
                assert(max_done =~= max_done + seq![]);
            },
        }
        i = i + 1;
    }
    assert(all.take(all.len() as int) =~= all);
    (cur, max)
}

/// Produces the three families from the entries of `root`.
pub fn collect_from(root: &str, entries: &Listing<ThermalEntry>) -> (r: Result<
    Vec<Metric<Value>>,
    Error,
>)
    ensures
        metric::outcome(r) == thermal_outcome(root@, *entries),
{
    match entries {
        Listing::Entries(entries) => {
            let zones = pick(entries, "thermal_zone");
            let devices = pick(entries, "cooling_device");
            let temp = zone_family(&zones);
            let (cur, max) = device_families(&devices);
            let out = vec![temp, cur, max];
            assert(metric::metric_views(out@) =~= thermal_families(order::views(entries@)));
            Ok(out)
        },
        Listing::NotFound => {
            let out = vec![new_zone_temp(), new_cur_state(), new_max_state()];
            assert(metric::metric_views(out@) =~= seq![
                zone_temp_family(),
                cur_state_family(),
                max_state_family(),
            ]);
            Ok(out)
        },
        Listing::Failed => {
            let mut m = "reading dir ".to_owned();
            m.push_str(root);
            Err(Error::new(m))
        },
        Listing::Broken => Err(broken_error(root)),
    }
}

pub struct ThermalZoneCollector;

impl ThermalZoneCollector {
    pub fn name(&self) -> (r: &'static str)
        ensures
            r@ == "thermal_zone"@,
    {
        "thermal_zone"
    }

    /// The directory of the zones and the cooling devices.
    pub fn path(&self, cfg: &Config) -> (r: String)
        ensures
            r@ == cfg.sys_path_of("/sys/class/thermal"@),
    {
        cfg.sys_path("/sys/class/thermal")
    }

    /// The metrics, given what came of listing the directory.
    pub fn collect(&self, cfg: &Config, entries: &Listing<ThermalEntry>) -> (r: Result<
        Vec<Metric<Value>>,
        Error,
    >)
        ensures
            metric::outcome(r) == thermal_outcome(
                cfg.sys_path_of("/sys/class/thermal"@),
                *entries,
            ),
    {
        collect_from(self.path(cfg).as_str(), entries)
    }
}

// ------------------------------------------------------------------------ laws

proof fn lemma_index_order()
    ensures
        order::is_order(order::order_of::<Indexed>()),
{
}

proof fn lemma_indexed_without(entries: Seq<EntryView>, prefix: Seq<char>, i: int) -> (k: int)
    requires
        0 <= i < entries.len(),
    ensures
        match index_after(entries[i].name, prefix) {
            Some(index) => 0 <= k < indexed(entries, prefix).len() && indexed(entries, prefix)[k]
                == (IndexedView { index, entry: entries[i] }) && indexed(entries, prefix).remove(k)
                == indexed(entries.remove(i), prefix),
            None => indexed(entries, prefix) == indexed(entries.remove(i), prefix),
        },
    decreases entries.len(),
{
    let front = entries.drop_last();
    let before = indexed(front, prefix);
    if i == entries.len() - 1 {
        assert(entries.remove(i) =~= front);
        assert(before.push(indexed(entries, prefix).last()).remove(before.len() as int) =~= before);
        before.len() as int
    } else {
        let k = lemma_indexed_without(front, prefix, i);
        let fewer = entries.remove(i);
        assert(front[i] == entries[i]);
        assert(fewer.drop_last() =~= front.remove(i));
        assert(fewer.last() == entries.last());
        if index_after(entries[i].name, prefix) is Some {
            match index_after(entries.last().name, prefix) {
                Some(index) => {
                    let last = IndexedView { index, entry: entries.last() };
                    assert(before.push(last).remove(k) =~= before.remove(k).push(last));
                    assert(before.push(last)[k] == before[k]);
                },
                None => {},
            }
        }
        k
    }
}

proof fn lemma_samples_without(
    entries: Seq<EntryView>,
    prefix: Seq<char>,
    i: int,
    f: spec_fn(IndexedView) -> Seq<SampleView<ValueView>>,
)
    requires
        0 <= i < entries.len(),
        forall|index: Seq<char>|
            #[trigger] f(IndexedView { index, entry: entries[i] }) == Seq::<
                SampleView<ValueView>,
            >::empty(),
    ensures
        rows::per_row(in_order(entries, prefix), f) == rows::per_row(
            in_order(entries.remove(i), prefix),
            f,
        ),
{
    let k = lemma_indexed_without(entries, prefix, i);
    match index_after(entries[i].name, prefix) {
        Some(index) => {
            let less = order::order_of::<Indexed>();
            lemma_index_order();
            let all = indexed(entries, prefix);
            let p = order::sorting_without(all, k, less);
            let x = IndexedView { index, entry: entries[i] };
            assert(f(x) == Seq::<SampleView<ValueView>>::empty());
            rows::lemma_per_row_insert(order::sorted(all.remove(k), less), f, p, x);
        },
        None => {},
    }
}

/// A malformed entry does not fail the collector: the families are those of
/// the other entries.
pub proof fn malformed_entries_add_nothing(entries: Seq<EntryView>, i: int)
    requires
        0 <= i < entries.len(),
    ensures
        !is_zone(entries[i]) ==> thermal_families(entries)[0] == thermal_families(
            entries.remove(i),
        )[0],
        !is_cooling_device(entries[i]) ==> thermal_families(entries)[1] == thermal_families(
            entries.remove(i),
        )[1] && thermal_families(entries)[2] == thermal_families(entries.remove(i))[2],
{
    if !is_zone(entries[i]) {
        lemma_samples_without(entries, "thermal_zone"@, i, zone_temp());
    }
    if !is_cooling_device(entries[i]) {
        lemma_samples_without(entries, "cooling_device"@, i, device_cur_state());
        lemma_samples_without(entries, "cooling_device"@, i, device_max_state());
    }
}

proof fn lemma_indexed_same(a: Seq<EntryView>, b: Seq<EntryView>, prefix: Seq<char>)
    requires
        a.to_multiset() == b.to_multiset(),
    ensures
        indexed(a, prefix).to_multiset() == indexed(b, prefix).to_multiset(),
    decreases a.len(),
{
    broadcast use vstd::seq_lib::group_to_multiset_ensures;

    assert(a.to_multiset().len() == a.len() && b.to_multiset().len() == b.len());
    if a.len() > 0 {
        let last = a.len() - 1;
        let i = order::lemma_same_without(a, b, last);
        lemma_indexed_same(a.remove(last), b.remove(i), prefix);
        let j = lemma_indexed_without(a, prefix, last);
        let k = lemma_indexed_without(b, prefix, i);
        if index_after(a[last].name, prefix) is Some {
            order::lemma_restored(indexed(a, prefix), j);
            order::lemma_restored(indexed(b, prefix), k);
        }
    } else {
        assert(a =~= b);
    }
}

/// Whether no two entries of a kind have the same number.
pub open spec fn numbers_differ(entries: Seq<EntryView>, prefix: Seq<char>) -> bool {
    forall|i: int, j: int|
        0 <= i < j < indexed(entries, prefix).len() ==> natural_index(
            (#[trigger] indexed(entries, prefix)[i]).index,
        ) != natural_index((#[trigger] indexed(entries, prefix)[j]).index)
}

/// The order in which the directory lists the entries does not matter.
pub proof fn listing_order_does_not_matter(a: Seq<EntryView>, b: Seq<EntryView>)
    requires
        a.to_multiset() == b.to_multiset(),
        numbers_differ(a, "thermal_zone"@),
        numbers_differ(a, "cooling_device"@),
    ensures
        thermal_families(a) == thermal_families(b),
{
    let less = order::order_of::<Indexed>();
    lemma_index_order();
    lemma_indexed_same(a, b, "thermal_zone"@);
    lemma_indexed_same(a, b, "cooling_device"@);
    order::sorting_ignores_order(
        indexed(a, "thermal_zone"@),
        indexed(b, "thermal_zone"@),
        less,
    );
    order::sorting_ignores_order(
        indexed(a, "cooling_device"@),
        indexed(b, "cooling_device"@),
        less,
    );
}

/// An entry counts where its name is the prefix and a number, and the number is
/// its index.
pub proof fn entries_are_told_by_their_names(prefix: Seq<char>, rest: Seq<char>)
    ensures
        index_after(prefix + rest, prefix) == if number::is_digits(rest) {
            Some(rest)
        } else {
            None
        },
{
    let name = prefix + rest;
    assert(name.take(prefix.len() as int) =~= prefix);
    assert(name.skip(prefix.len() as int) =~= rest);
}

/// The entries that count are all those of such names, each with its own number.
pub proof fn entries_are_picked(entries: Seq<EntryView>, prefix: Seq<char>)
    ensures
        indexed(entries, prefix) == entries.filter_map(
            |e: EntryView|
                match index_after(e.name, prefix) {
                    Some(index) => Some(IndexedView { index, entry: e }),
                    None => None,
                },
        ),
    decreases entries.len(),
{
    if entries.len() > 0 {
        entries_are_picked(entries.drop_last(), prefix);
        let before = indexed(entries.drop_last(), prefix);
        match index_after(entries.last().name, prefix) {
            Some(index) => {
                let x = IndexedView { index, entry: entries.last() };
                assert(before.push(x) =~= before + seq![x]);
            },
            None => {},
        }
    }
}

/// The entries are exported in the order of their numbers, and none is lost.
pub proof fn entries_come_by_number(entries: Seq<EntryView>, prefix: Seq<char>, i: int, j: int)
    requires
        0 <= i < j < in_order(entries, prefix).len(),
        number::u64_value(in_order(entries, prefix)[i].index) is Some,
        number::u64_value(in_order(entries, prefix)[j].index) is Some,
    ensures
        in_order(entries, prefix).to_multiset() == indexed(entries, prefix).to_multiset(),
        number::u64_value(in_order(entries, prefix)[i].index)->0 <= number::u64_value(
            in_order(entries, prefix)[j].index,
        )->0,
{
    let less = order::order_of::<Indexed>();
    let s = in_order(entries, prefix);
    lemma_index_order();
    order::sorting_orders(indexed(entries, prefix), less);
    assert(!less(s[j], s[i]));
}

proof fn lemma_ordered_from(entries: Seq<EntryView>, prefix: Seq<char>, i: int) -> (k: int)
    requires
        0 <= i < in_order(entries, prefix).len(),
    ensures
        0 <= k < indexed(entries, prefix).len(),
        in_order(entries, prefix)[i] == indexed(entries, prefix)[k],
        in_order(entries, prefix).len() == indexed(entries, prefix).len(),
{
    let less = order::order_of::<Indexed>();
    let s = in_order(entries, prefix);
    let from = indexed(entries, prefix);
    lemma_index_order();
    order::sorting_orders(from, less);
    s.to_multiset_ensures();
    from.to_multiset_ensures();
    assert(s.contains(s[i]));
    assert(from.to_multiset().count(s[i]) > 0);
    assert(from.contains(s[i]));
    choose|k: int| 0 <= k < from.len() && from[k] == s[i]
}

/// Where every zone can be read, each has its own temperature in degrees, of
/// which a millidegree is a thousandth, under its own number and type.
pub proof fn every_zone_has_its_temperature(entries: Seq<EntryView>, i: int)
    requires
        forall|k: int|
            0 <= k < indexed(entries, "thermal_zone"@).len() ==> {
                let e = (#[trigger] indexed(entries, "thermal_zone"@)[k]).entry;
                e.kind is Some && e.policy is Some && e.temp is Some && number::i64_value(
                    text::trim(e.temp->0),
                ) is Some
            },
        0 <= i < indexed(entries, "thermal_zone"@).len(),
    ensures
        ({
            let family = thermal_families(entries)[0];
            let zone = in_order(entries, "thermal_zone"@)[i];
            &&& family.name == "node_thermal_zone_temp"@
            &&& family.samples.len() == indexed(entries, "thermal_zone"@).len()
            &&& family.samples[i].labels == seq![
                ("zone"@, zone.index),
                ("type"@, text::trim(zone.entry.kind->0)),
            ]
            &&& quantity::stands_for(
                family.samples[i].value,
                number::i64_value(text::trim(zone.entry.temp->0))->0 as int,
                1_000,
            )
        }),
{
    let zones = in_order(entries, "thermal_zone"@);
    lemma_index_order();
    order::sorting_orders(indexed(entries, "thermal_zone"@), order::order_of::<Indexed>());
    assert forall|j: int| 0 <= j < zones.len() implies zone_temp()(#[trigger] zones[j]).len()
        == 1 by {
        let k = lemma_ordered_from(entries, "thermal_zone"@, j);
        assert(indexed(entries, "thermal_zone"@)[k].entry.kind is Some);
    }
    rows::rows_of_equal_length(zones, zone_temp(), 1);
    let samples = rows::per_row(zones, zone_temp());
    let zone = zones[i];
    assert(rows::item_at(samples, 1, i, 0) == zone_temp()(zone)[0]);
    assert(zone_temp()(zones[i]).len() == 1);
    assert(samples[i].labels =~= seq![
        ("zone"@, zone.index),
        ("type"@, text::trim(zone.entry.kind->0)),
    ]);
}

/// Where every cooling device can be read, each has its own current and maximum
/// state, under its own number and type.
pub proof fn every_cooling_device_has_its_states(entries: Seq<EntryView>, i: int)
    requires
        forall|k: int|
            0 <= k < indexed(entries, "cooling_device"@).len() ==> {
                let e = (#[trigger] indexed(entries, "cooling_device"@)[k]).entry;
                e.kind is Some && e.cur_state is Some && e.max_state is Some && number::i64_value(
                    text::trim(e.cur_state->0),
                ) is Some && number::i64_value(text::trim(e.max_state->0)) is Some
            },
        0 <= i < indexed(entries, "cooling_device"@).len(),
    ensures
        ({
            let now = thermal_families(entries)[1];
            let most = thermal_families(entries)[2];
            let device = in_order(entries, "cooling_device"@)[i];
            let labels = seq![
                ("name"@, device.index),
                ("type"@, text::trim(device.entry.kind->0)),
            ];
            &&& now.name == "node_cooling_device_cur_state"@
            &&& most.name == "node_cooling_device_max_state"@
            &&& now.samples.len() == indexed(entries, "cooling_device"@).len()
            &&& most.samples.len() == now.samples.len()
            &&& now.samples[i].labels == labels
            &&& most.samples[i].labels == labels
            &&& quantity::stands_for(
                now.samples[i].value,
                number::i64_value(text::trim(device.entry.cur_state->0))->0 as int,
                1,
            )
            &&& quantity::stands_for(
                most.samples[i].value,
                number::i64_value(text::trim(device.entry.max_state->0))->0 as int,
                1,
            )
        }),
{
    let devices = in_order(entries, "cooling_device"@);
    lemma_index_order();
    order::sorting_orders(indexed(entries, "cooling_device"@), order::order_of::<Indexed>());
    assert forall|j: int| 0 <= j < devices.len() implies device_cur_state()(
        #[trigger] devices[j],
    ).len() == 1 && device_max_state()(devices[j]).len() == 1 by {
        let k = lemma_ordered_from(entries, "cooling_device"@, j);
        assert(indexed(entries, "cooling_device"@)[k].entry.kind is Some);
    }
    rows::rows_of_equal_length(devices, device_cur_state(), 1);
    rows::rows_of_equal_length(devices, device_max_state(), 1);
    let now = rows::per_row(devices, device_cur_state());
    let most = rows::per_row(devices, device_max_state());
    let device = devices[i];
    assert(rows::item_at(now, 1, i, 0) == device_cur_state()(device)[0]);
    assert(rows::item_at(most, 1, i, 0) == device_max_state()(device)[0]);
    assert(device_cur_state()(devices[i]).len() == 1 && device_max_state()(devices[i]).len() == 1);
    let labels = seq![("name"@, device.index), ("type"@, text::trim(device.entry.kind->0))];
    assert(now[i].labels =~= labels);
    assert(most[i].labels =~= labels);
}

/// A zone without a type, a policy or a temperature that is a number is left out,
/// and so is a cooling device without a type or a state that is a number.
pub proof fn entries_need_their_attributes(entries: Seq<EntryView>, i: int)
    requires
        0 <= i < entries.len(),
    ensures
        ({
            let e = entries[i];
            let number = |raw: Option<Seq<char>>|
                raw is Some && number::i64_value(text::trim(raw->0)) is Some;
            let fewer = thermal_families(entries.remove(i));
            &&& e.kind is None || e.policy is None || !number(e.temp) ==> thermal_families(
                entries,
            )[0] == fewer[0]
            &&& e.kind is None || !number(e.cur_state) || !number(e.max_state)
                ==> thermal_families(entries)[1] == fewer[1] && thermal_families(entries)[2]
                == fewer[2]
        }),
{
    malformed_entries_add_nothing(entries, i);
}

/// Without the directory the families are there but empty; one that cannot be
/// read is an error.
pub proof fn kernels_may_lack_zones(root: Seq<char>)
    ensures
        thermal_outcome(root, Listing::NotFound) is Ok,
        thermal_outcome(root, Listing::NotFound)->Ok_0.len() == 3,
        forall|k: int|
            0 <= k < 3 ==> (#[trigger] thermal_outcome(
                root,
                Listing::NotFound,
            )->Ok_0[k]).samples.len() == 0,
        thermal_outcome(root, Listing::Failed) is Err,
        thermal_outcome(root, Listing::Broken) is Err,
{
}

} // verus!
