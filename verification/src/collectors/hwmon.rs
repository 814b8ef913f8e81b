//! `/sys/class/hwmon`: hardware monitor sensor readings.
//!
//! Every `hwmon*` directory under `/sys/class/hwmon` is a chip, named by its
//! `device` link or its `name` file. Every recognised
//! `<type><N>_<property>` attribute file of a chip becomes a sample in the
//! units upstream uses: temperatures in Celsius, voltages in volts, currents
//! in amps, fans in RPM, power in watts, energy as a counter in joules, etc.
//! The `device` subdirectory counts too, because some drivers expose sensors
//! there instead of (or in addition to) the hwmonN directory itself.

use vstd::prelude::*;
use vstd::slice::slice_subrange;

use crate::config::Config;
use crate::error::Error;
use crate::metric;
use crate::metric::{
    find_family, Metric, MetricType, MetricView, Sample, SampleView, Scale, Value, ValueView,
};
use crate::number;
use crate::number::{float_literal, parse_u32, push_decimal, to_ascii_lower};
use crate::order;
use crate::order::{bytes_before, find_key, sort, Ordered};
use crate::quantity;
use crate::rows;
use crate::source;
use crate::source::{broken_error, unreadable_error, Listing};
use crate::text;
use crate::text::{
    ascii_alphanumeric, chars_of, digit, find_char, same, same_str, string_of, trimmed,
};

verus! {

// ---------------------------------------------------------------- file names

/// Holds of everything but digits.
pub open spec fn not_digit() -> spec_fn(char) -> bool {
    |c: char| !text::is_digit(c)
}

/// Holds of digits.
pub open spec fn a_digit() -> spec_fn(char) -> bool {
    |c: char| text::is_digit(c)
}

/// Whether `p` can be a property.
pub open spec fn is_property(p: Seq<char>) -> bool {
    p.len() > 0 && !p.contains('\n')
}

/// The position of the last `_` in `s` that is not its first character, or 0.
pub open spec fn last_underscore(s: Seq<char>) -> int
    decreases s.len(),
{
    if s.len() <= 1 {
        0
    } else if s.last() == '_' {
        s.len() - 1
    } else {
        last_underscore(s.drop_last())
    }
}

/// The sensor type, the sensor number and the property that a file name
/// spells by the grammar
///   `^(?P<type>[^0-9]+)(?P<id>[0-9]*)?(_(?P<property>.+))?$`.
/// The type is as long as it can be. Without digits the number is 0; one past
/// 32 bits is none. The property is empty where there is none.
pub open spec fn exploded(name: Seq<char>) -> Option<(Seq<char>, u32, Seq<char>)> {
    let n = text::run(name, not_digit());
    let rest = name.skip(n);
    let d = text::run(rest, a_digit());
    let tail = rest.skip(d);
    let u = last_underscore(name.take(n));
    if n == 0 {
        None
    } else if tail.len() == 0 || (tail[0] == '_' && is_property(tail.skip(1))) {
        let property = if tail.len() == 0 {
            seq![]
        } else {
            tail.skip(1)
        };
        if d == 0 {
            Some((name.take(n), 0, property))
        } else {
            match number::u32_value(rest.take(d)) {
                Some(id) => Some((name.take(n), id, property)),
                None => None,
            }
        }
    } else if u > 0 && is_property(name.skip(u + 1)) {
        Some((name.take(u), 0, name.skip(u + 1)))
    } else {
        None
    }
}

fn property_chars(p: &[char]) -> (r: bool)
    ensures
        r == is_property(p@),
{
    let i = find_char(p, '\n');
    p.len() > 0 && i == p.len()
}

fn find_last_underscore(s: &[char]) -> (r: usize)
    ensures
        r == last_underscore(s@),
        r == 0 || r < s@.len(),
{
    let mut n: usize = s.len();
    assert(s@.take(s@.len() as int) =~= s@);
    while n > 1
        invariant
            n <= s@.len(),
            last_underscore(s@) == last_underscore(s@.take(n as int)),
        decreases n,
    {
        if s[n - 1] == '_' {
            return n - 1;
        }
        assert(s@.take(n as int).drop_last() =~= s@.take(n - 1));
        n = n - 1;
    }
    0
}

/// Takes a file name apart by the grammar
///   `^(?P<type>[^0-9]+)(?P<id>[0-9]*)?(_(?P<property>.+))?$`.
/// The property is empty when the file has the form `<type><id>` with no
/// underscore.
pub fn explode_sensor_filename(filename: &str) -> (r: Option<(&str, u32, &str)>)
    ensures
        match r {
            Some((t, id, p)) => exploded(filename@) == Some((t@, id, p@)),
            None => exploded(filename@) is None,
        },
{
    let chars = chars_of(filename);
    // type: leading run of non-digits
    let mut i: usize = 0;
    while i < chars.len() && !digit(chars[i])
        invariant
            i <= chars@.len(),
            forall|j: int| 0 <= j < i ==> !text::is_digit(#[trigger] chars@[j]),
        decreases chars@.len() - i,
    {
        i = i + 1;
    }
    let ghost rest = chars@.skip(i as int);
    proof {
        text::lemma_run(chars@, not_digit(), i as int);
    }
    if i == 0 {
        return None;
    }
    let id_start = i;
    // id: optional run of digits
    while i < chars.len() && digit(chars[i])
        invariant
            id_start <= i <= chars@.len(),
            forall|j: int| id_start <= j < i ==> text::is_digit(#[trigger] chars@[j]),
        decreases chars@.len() - i,
    {
        i = i + 1;
    }
    proof {
        text::lemma_run(rest, a_digit(), i - id_start);
        assert(rest.take(i - id_start) =~= chars@.subrange(id_start as int, i as int));
        assert(rest.skip(i - id_start) =~= chars@.skip(i as int));
    }
    let len = chars.len();
    // optional `_<property>`
    let from = if i == len {
        len
    } else if chars[i] == '_' && property_chars(slice_subrange(chars.as_slice(), i + 1, len)) {
        i + 1
    } else {
        assert(chars@.skip(i as int).skip(1) =~= chars@.subrange(i + 1, len as int));
        let u = find_last_underscore(slice_subrange(chars.as_slice(), 0, id_start));
        assert(chars@.subrange(0, id_start as int) =~= chars@.take(id_start as int));
        if u > 0 && property_chars(slice_subrange(chars.as_slice(), u + 1, len)) {
            let sensor_type = filename.substring_char(0, u);
            let property = filename.substring_char(u + 1, len);
            assert(sensor_type@ =~= chars@.take(u as int));
            assert(property@ =~= chars@.skip(u + 1));
            return Some((sensor_type, 0, property));
        }
        assert(u > 0 ==> chars@.skip(u + 1) =~= chars@.subrange(u + 1, len as int));
        return None;
    };
    let id = if i == id_start {
        0
    } else {
        match parse_u32(slice_subrange(chars.as_slice(), id_start, i)) {
            Some(id) => id,
            None => {
                assert(i < len ==> chars@.skip(i as int).skip(1) =~= chars@.subrange(
                    i + 1,
                    len as int,
                ));
                return None;
            },
        }
    };
    let sensor_type = filename.substring_char(0, id_start);
    let property = filename.substring_char(from, len);
    assert(sensor_type@ =~= chars@.take(id_start as int));
    assert(property@ =~= if i == len {
        seq![]
    } else {
        chars@.skip(i as int).skip(1)
    });
    Some((sensor_type, id, property))
}

/// The type and the number that a sensor's name (`temp1`, `in0`, and so on)
/// spells.
pub fn explode_sensor(sensor: &str) -> (r: Option<(&str, u32)>)
    ensures
        match r {
            Some((t, id)) => exploded(sensor@) matches Some(e) && e.0 == t@ && e.1 == id,
            None => exploded(sensor@) is None,
        },
{
    match explode_sensor_filename(sensor) {
        Some((t, id, _)) => Some((t, id)),
        None => None,
    }
}

/// The sensor types that are recognised. Files of other types are skipped.
pub open spec fn is_sensor_type(t: Seq<char>) -> bool {
    ||| t == "vrm"@
    ||| t == "beep_enable"@
    ||| t == "update_interval"@
    ||| t == "in"@
    ||| t == "cpu"@
    ||| t == "fan"@
    ||| t == "pwm"@
    ||| t == "temp"@
    ||| t == "curr"@
    ||| t == "power"@
    ||| t == "energy"@
    ||| t == "humidity"@
    ||| t == "intrusion"@
    ||| t == "freq"@
}

fn sensor_type_known(t: &str) -> (r: bool)
    ensures
        r == is_sensor_type(t@),
{
    let c = chars_of(t);
    let t = c.as_slice();
    same(t, "vrm") || same(t, "beep_enable") || same(t, "update_interval") || same(t, "in") || same(
        t,
        "cpu",
    ) || same(t, "fan") || same(t, "pwm") || same(t, "temp") || same(t, "curr") || same(t, "power")
        || same(t, "energy") || same(t, "humidity") || same(t, "intrusion") || same(t, "freq")
}

/// Whether a file of a chip is an attribute of a sensor.
pub open spec fn is_attribute(name: Seq<char>) -> bool {
    exploded(name) matches Some(e) && is_sensor_type(e.0)
}

/// Whether the file of that name is an attribute to be read.
pub fn wanted(name: &str) -> (r: bool)
    ensures
        r == is_attribute(name@),
{
    match explode_sensor_filename(name) {
        Some((t, _, _)) => sensor_type_known(t),
        None => false,
    }
}

// --------------------------------------------------------------------- names

/// The lower-case form of `c` where that is one of `a` to `z`, `0` to `9`,
/// `:` and `_`, otherwise `_`.
pub open spec fn clean_char(c: char) -> char {
    let lc = number::ascii_lower(c);
    if text::is_ascii_alphanumeric(lc) || lc == ':' || lc == '_' {
        lc
    } else {
        '_'
    }
}

/// Holds of `_`.
pub open spec fn underscore() -> spec_fn(char) -> bool {
    |c: char| c == '_'
}

/// `s` without the `_` at its end.
pub open spec fn trim_end_underscores(s: Seq<char>) -> Seq<char>
    decreases s.len(),
{
    if s.len() > 0 && s.last() == '_' {
        trim_end_underscores(s.drop_last())
    } else {
        s
    }
}

/// `s` as part of a metric name: in lower case, with `_` for every character
/// that has no place there, and no `_` at either end.
pub open spec fn cleaned(s: Seq<char>) -> Seq<char> {
    let t = s.map_values(|c: char| clean_char(c));
    trim_end_underscores(t.skip(text::run(t, underscore())))
}

/// Lower-case and replace every character that isn't `[a-z0-9:_]` with
/// `_`, then trim leading/trailing underscores.
pub fn clean_metric_name(name: &str) -> (r: String)
    ensures
        r@ == cleaned(name@),
{
    let chars = chars_of(name);
    let mut out: Vec<char> = Vec::new();
    let ghost all = name@.map_values(|c: char| clean_char(c));
    let mut i: usize = 0;
    while i < chars.len()
        invariant
            i <= chars@.len(),
            chars@ == name@,
            all == name@.map_values(|c: char| clean_char(c)),
            out@ == all.take(i as int),
        decreases chars@.len() - i,
    {
        let lc = to_ascii_lower(chars[i]);
        assert(all.take(i + 1) =~= all.take(i as int).push(clean_char(chars@[i as int])));
        if ascii_alphanumeric(lc) || lc == ':' || lc == '_' {
            out.push(lc);
        } else {
            out.push('_');
        }
        i = i + 1;
    }
    assert(all.take(all.len() as int) =~= all);
    let mut start: usize = 0;
    while start < out.len() && out[start] == '_'
        invariant
            start <= out@.len(),
            forall|j: int| 0 <= j < start ==> out@[j] == '_',
        decreases out@.len() - start,
    {
        start = start + 1;
    }
    proof {
        text::lemma_run(out@, underscore(), start as int);
    }
    let mut end: usize = out.len();
    let ghost t = out@.skip(start as int);
    assert(out@.subrange(start as int, end as int) =~= t);
    while end > start && out[end - 1] == '_'
        invariant
            start <= end <= out@.len(),
            trim_end_underscores(t) == trim_end_underscores(
                out@.subrange(start as int, end as int),
            ),
        decreases end,
    {
        proof {
            assert(out@.subrange(start as int, end as int).drop_last() =~= out@.subrange(
                start as int,
                end - 1,
            ));
        }
        end = end - 1;
    }
    string_of(slice_subrange(out.as_slice(), start, end))
}

/// `c`, or the replacement character where `c` is a control character that
/// would corrupt the text exposition format.
pub open spec fn shown_char(c: char) -> char {
    if (c as u32) < 0x20 {
        '\u{FFFD}'
    } else {
        c
    }
}

/// `s` with its control characters replaced.
pub open spec fn sanitized(s: Seq<char>) -> Seq<char> {
    s.map_values(|c: char| shown_char(c))
}

/// Substitutes the control characters of `s`.
pub fn sanitize_utf8(s: &str) -> (r: String)
    ensures
        r@ == sanitized(s@),
{
    let chars = chars_of(s);
    let mut out = String::new();
    let ghost all = sanitized(s@);
    let mut i: usize = 0;
    while i < chars.len()
        invariant
            i <= chars@.len(),
            chars@ == s@,
            all == sanitized(s@),
            out@ == all.take(i as int),
        decreases chars@.len() - i,
    {
        let c = chars[i];
        assert(all.take(i + 1) =~= all.take(i as int).push(shown_char(c)));
        if (c as u32) < 0x20 {
            out.push('\u{FFFD}');
        } else {
            out.push(c);
        }
        i = i + 1;
    }
    assert(all.take(all.len() as int) =~= all);
    out
}

/// The name that a `name` file gives, where it gives one.
pub open spec fn chip_name(name_file: Option<Seq<char>>) -> Option<Seq<char>> {
    match name_file {
        Some(raw) => {
            let name = cleaned(text::trim(raw));
            if text::trim(raw).len() == 0 || name.len() == 0 {
                None
            } else {
                Some(name)
            }
        },
        None => None,
    }
}

fn read_name_file(name_file: &Option<String>) -> (r: Option<String>)
    ensures
        match r {
            Some(name) => chip_name(text::opt_view(*name_file)) == Some(name@),
            None => chip_name(text::opt_view(*name_file)) is None,
        },
{
    match name_file {
        Some(raw) => {
            let chars = chars_of(raw.as_str());
            let t = trimmed(chars.as_slice());
            if t.len() == 0 {
                return None;
            }
            let name = clean_metric_name(string_of(t).as_str());
            if name.as_str().is_empty() {
                None
            } else {
                Some(name)
            }
        },
        None => None,
    }
}

// --------------------------------------------------------------- sensor data

/// A file of a chip: its name and its contents, where they could be read.
#[derive(Debug, Clone)]
pub struct SensorFile {
    pub name: String,
    pub contents: Option<String>,
}

/// What a [`SensorFile`] says.
pub struct SensorFileView {
    pub name: Seq<char>,
    pub contents: Option<Seq<char>>,
}

impl View for SensorFile {
    type V = SensorFileView;

    open spec fn view(&self) -> SensorFileView {
        SensorFileView { name: self.name@, contents: text::opt_view(self.contents) }
    }
}

/// The properties of a sensor, in the order of their names: `input`, `max`,
/// `label`, and so on, each with the text that sysfs gave.
pub type Props = Seq<(Seq<char>, Seq<char>)>;

/// The sensors of a chip (`temp1` and so on) in the order of their names.
pub type SensorData = Seq<(Seq<char>, Props)>;

/// What a list of properties says.
pub open spec fn prop_views(v: Seq<(String, String)>) -> Props {
    metric::label_views(v)
}

/// What a list of sensors says.
pub open spec fn data_views(v: Seq<(String, Vec<(String, String)>)>) -> SensorData {
    Seq::new(v.len(), |i: int| (v[i].0@, prop_views(v[i].1@)))
}

/// `s` without the line feeds at its end.
pub open spec fn trim_end_newlines(s: Seq<char>) -> Seq<char>
    decreases s.len(),
{
    if s.len() > 0 && s.last() == '\n' {
        trim_end_newlines(s.drop_last())
    } else {
        s
    }
}

/// The properties of `sensor`, none where it is not there.
pub open spec fn props_of(data: SensorData, sensor: Seq<char>) -> Props {
    match order::get(data, sensor) {
        Some(props) => props,
        None => seq![],
    }
}

/// `data` with what one file says of a sensor. A file that is no attribute or
/// could not be read says nothing.
pub open spec fn with_file(data: SensorData, file: SensorFileView) -> SensorData {
    if is_attribute(file.name) && file.contents is Some {
        let (sensor_type, id, property) = exploded(file.name)->0;
        let sensor = sensor_type + number::decimal(id as nat);
        order::put(
            data,
            sensor,
            order::put(
                props_of(data, sensor),
                property,
                trim_end_newlines(file.contents->0),
            ),
        )
    } else {
        data
    }
}

/// `data` with what the files say, one after the other.
pub open spec fn with_files(data: SensorData, files: Seq<SensorFileView>) -> SensorData
    decreases files.len(),
{
    if files.len() == 0 {
        data
    } else {
        with_file(with_files(data, files.drop_last()), files.last())
    }
}

fn without_end_newlines(s: &str) -> (r: String)
    ensures
        r@ == trim_end_newlines(s@),
{
    let chars = chars_of(s);
    let mut n: usize = chars.len();
    assert(chars@.take(n as int) =~= chars@);
    while n > 0 && chars[n - 1] == '\n'
        invariant
            n <= chars@.len(),
            trim_end_newlines(s@) == trim_end_newlines(chars@.take(n as int)),
        decreases n,
    {
        proof {
            assert(chars@.take(n as int).drop_last() =~= chars@.take(n - 1));
        }
        n = n - 1;
    }
    string_of(slice_subrange(chars.as_slice(), 0, n))
}

fn put_prop(props: &mut Vec<(String, String)>, property: &str, value: String)
    ensures
        prop_views(final(props)@) == order::put(prop_views(old(props)@), property@, value@),
{
    let ghost before = prop_views(props@);
    let i = find_key(props, property);
    proof {
        assert(order::key_views(props@) =~= order::keys(before));
    }
    if i < props.len() && same_str(props[i].0.as_str(), property) {
        let (key, _) = props.remove(i);
        props.insert(i, (key, value));
        assert(prop_views(props@) =~= before.update(i as int, (property@, value@)));
    } else {
        props.insert(i, (property.to_owned(), value));
        assert(prop_views(props@) =~= before.insert(i as int, (property@, value@)));
    }
}

fn get_prop<'a>(props: &'a Vec<(String, String)>, property: &str) -> (r: Option<&'a str>)
    ensures
        match r {
            Some(v) => order::get(prop_views(props@), property@) == Some(v@),
            None => order::get(prop_views(props@), property@) is None,
        },
{
    let i = find_key(props, property);
    proof {
        assert(order::key_views(props@) =~= order::keys(prop_views(props@)));
    }
    if i < props.len() && same_str(props[i].0.as_str(), property) {
        Some(props[i].1.as_str())
    } else {
        None
    }
}

fn add_file(data: &mut Vec<(String, Vec<(String, String)>)>, file: &SensorFile)
    ensures
        data_views(final(data)@) == with_file(data_views(old(data)@), file@),
{
    let (sensor_type, id, property) = match explode_sensor_filename(file.name.as_str()) {
        Some(e) => e,
        None => {
            return ;
        },
    };
    if !sensor_type_known(sensor_type) {
        return ;
    }
    let raw = match &file.contents {
        Some(raw) => raw,
        None => {
            return ;
        },
    };
    let value = without_end_newlines(raw.as_str());
    let mut sensor = sensor_type.to_owned();
    push_decimal(&mut sensor, id as u64);
    let ghost before = data_views(data@);
    let i = find_key(data, sensor.as_str());
    proof {
        assert(order::key_views(data@) =~= order::keys(before));
    }
    if i < data.len() && same_str(data[i].0.as_str(), sensor.as_str()) {
        assert(before[i as int] == (data@[i as int].0@, prop_views(data@[i as int].1@)));
        let (key, mut props) = data.remove(i);
        put_prop(&mut props, property, value);
        data.insert(i, (key, props));
        assert(data_views(data@) =~= before.update(i as int, (sensor@, prop_views(props@))));
    } else {
        let mut props: Vec<(String, String)> = Vec::new();
        assert(prop_views(props@) =~= seq![]);
        put_prop(&mut props, property, value);
        data.insert(i, (sensor, props));
        assert(data_views(data@) =~= before.insert(i as int, (sensor@, prop_views(props@))));
    }
}

/// Adds what the files of a directory say to `data`.
fn collect_sensor_data(
    files: &Vec<SensorFile>,
    data: &mut Vec<(String, Vec<(String, String)>)>,
)
    ensures
        data_views(final(data)@) == with_files(data_views(old(data)@), order::views(files@)),
{
    let ghost all = order::views(files@);
    let mut i: usize = 0;
    while i < files.len()
        invariant
            i <= files@.len(),
            all == order::views(files@),
            data_views(data@) == with_files(data_views(old(data)@), all.take(i as int)),
        decreases files@.len() - i,
    {
        proof {
            assert(all.take(i + 1).drop_last() =~= all.take(i as int));
            assert(all[i as int] == files@[i as int]@);
        }
        add_file(data, &files[i]);
        i = i + 1;
    }
    assert(all.take(all.len() as int) =~= all);
}

// ------------------------------------------------------------------ emissions

/// One sample and the family that it belongs to.
pub struct Emission {
    pub name: String,
    pub help: String,
    pub mtype: MetricType,
    pub sample: Sample<Value>,
}

/// What an [`Emission`] says.
#[verifier::ext_equal]
pub struct EmissionView {
    pub name: Seq<char>,
    pub help: Seq<char>,
    pub mtype: MetricType,
    pub sample: SampleView<ValueView>,
}

impl View for Emission {
    type V = EmissionView;

    open spec fn view(&self) -> EmissionView {
        EmissionView {
            name: self.name@,
            help: self.help@,
            mtype: self.mtype,
            sample: self.sample@,
        }
    }
}

/// A sample of a sensor.
pub open spec fn sensor_sample(
    value: ValueView,
    chip: Seq<char>,
    sensor: Seq<char>,
) -> SampleView<ValueView> {
    SampleView::new(value).with_label("chip"@, chip).with_label("sensor"@, sensor)
}

fn sample(value: Value, chip: &str, sensor: &str) -> (r: Sample<Value>)
    ensures
        r@ == sensor_sample(value@, chip@, sensor@),
{
    Sample::new(value).with_label("chip", chip).with_label("sensor", sensor)
}

/// A numeric property of a sensor on its way to a sample.
pub struct TypedEmit<'a> {
    pub sensor_type: &'a str,
    pub element: &'a str,
    /// The name of the metric so far, without a unit.
    pub name: &'a str,
    /// The number, as the file spelled it.
    pub number: &'a str,
    pub chip: &'a str,
    pub sensor: &'a str,
    /// The text of the sensor's `label` file.
    pub label: Option<&'a str>,
}

/// What a [`TypedEmit`] says.
pub struct TypedView {
    pub sensor_type: Seq<char>,
    pub element: Seq<char>,
    pub name: Seq<char>,
    pub number: Seq<char>,
    pub chip: Seq<char>,
    pub sensor: Seq<char>,
    pub label: Option<Seq<char>>,
}

impl<'a> View for TypedEmit<'a> {
    type V = TypedView;

    open spec fn view(&self) -> TypedView {
        TypedView {
            sensor_type: self.sensor_type@,
            element: self.element@,
            name: self.name@,
            number: self.number@,
            chip: self.chip@,
            sensor: self.sensor@,
            label: match self.label {
                Some(label) => Some(label@),
                None => None,
            },
        }
    }
}

/// The number of `a` under a conversion, in the family `a.name + suffix`.
pub open spec fn emission(
    a: TypedView,
    suffix: Seq<char>,
    help: Seq<char>,
    mtype: MetricType,
    scale: Scale,
) -> EmissionView {
    EmissionView {
        name: a.name + suffix,
        help,
        mtype,
        sample: sensor_sample(ValueView::decimal(a.number).scaled(scale), a.chip, a.sensor),
    }
}

fn emit(a: &TypedEmit<'_>, suffix: &str, help: String, mtype: MetricType, scale: Scale) -> (r:
    Emission)
    ensures
        r@ == emission(a@, suffix@, help@, mtype, scale),
{
    let mut name = a.name.to_owned();
    name.push_str(suffix);
    Emission {
        name,
        help,
        mtype,
        sample: sample(Value::decimal(a.number.to_owned()).scaled(scale), a.chip, a.sensor),
    }
}

/// `before`, `word` in parentheses.
pub open spec fn about(before: Seq<char>, word: Seq<char>) -> Seq<char> {
    before + " ("@ + word + ")"@
}

fn help_about(before: &str, word: &str) -> (r: String)
    ensures
        r@ == about(before@, word@),
{
    let mut help = before.to_owned();
    help.push_str(" (");
    help.push_str(word);
    help.push_str(")");
    help
}

/// Divides the microunits that sysfs reports.
pub const MICRO: u64 = 1_000_000;

/// The voltage, temperature and current rules; `None` where none applies.
pub open spec fn voltage_current_temp(a: TypedView) -> Option<EmissionView> {
    if a.sensor_type == "in"@ || a.sensor_type == "cpu"@ {
        Some(
            emission(
                a,
                "_volts"@,
                about("Hardware monitor for voltage"@, a.element),
                MetricType::Gauge,
                Scale::TimesThousandth,
            ),
        )
    } else if a.sensor_type == "temp"@ && a.element != "type"@ {
        let element = if a.element.len() == 0 {
            "input"@
        } else {
            a.element
        };
        Some(
            emission(
                a,
                "_celsius"@,
                about("Hardware monitor for temperature"@, element),
                MetricType::Gauge,
                Scale::TimesThousandth,
            ),
        )
    } else if a.sensor_type == "curr"@ {
        Some(
            emission(
                a,
                "_amps"@,
                about("Hardware monitor for current"@, a.element),
                MetricType::Gauge,
                Scale::TimesThousandth,
            ),
        )
    } else {
        None
    }
}

fn emit_voltage_current_temp(a: &TypedEmit<'_>) -> (r: Option<Emission>)
    ensures
        match r {
            Some(e) => voltage_current_temp(a@) == Some(e@),
            None => voltage_current_temp(a@) is None,
        },
{
    if same_str(a.sensor_type, "in") || same_str(a.sensor_type, "cpu") {
        Some(
            emit(
                a,
                "_volts",
                help_about("Hardware monitor for voltage", a.element),
                MetricType::Gauge,
                Scale::TimesThousandth,
            ),
        )
    } else if same_str(a.sensor_type, "temp") && !same_str(a.element, "type") {
        let element = if a.element.is_empty() {
            "input"
        } else {
            a.element
        };
        Some(
            emit(
                a,
                "_celsius",
                help_about("Hardware monitor for temperature", element),
                MetricType::Gauge,
                Scale::TimesThousandth,
            ),
        )
    } else if same_str(a.sensor_type, "curr") {
        Some(
            emit(
                a,
                "_amps",
                help_about("Hardware monitor for current", a.element),
                MetricType::Gauge,
                Scale::TimesThousandth,
            ),
        )
    } else {
        None
    }
}

/// The energy and power rules; `None` where none applies.
pub open spec fn energy_power(a: TypedView) -> Option<EmissionView> {
    if a.sensor_type == "energy"@ {
        Some(
            emission(
                a,
                "_joule_total"@,
                about("Hardware monitor for joules used so far"@, a.element),
                MetricType::Counter,
                Scale::Over(MICRO),
            ),
        )
    } else if a.sensor_type != "power"@ {
        None
    } else if a.element == "accuracy"@ {
        Some(
            emission(
                a,
                ""@,
                "Hardware monitor power meter accuracy, as a ratio"@,
                MetricType::Gauge,
                Scale::Over(MICRO),
            ),
        )
    } else if a.element == "average_interval"@ || a.element == "average_interval_min"@ || a.element
        == "average_interval_max"@ {
        Some(
            emission(
                a,
                "_seconds"@,
                about("Hardware monitor power usage update interval"@, a.element),
                MetricType::Gauge,
                Scale::TimesThousandth,
            ),
        )
    } else {
        Some(
            emission(
                a,
                "_watt"@,
                about("Hardware monitor for power usage in watts"@, a.element),
                MetricType::Gauge,
                Scale::Over(MICRO),
            ),
        )
    }
}

fn emit_energy_power(a: &TypedEmit<'_>) -> (r: Option<Emission>)
    ensures
        match r {
            Some(e) => energy_power(a@) == Some(e@),
            None => energy_power(a@) is None,
        },
{
    if same_str(a.sensor_type, "energy") {
        Some(
            emit(
                a,
                "_joule_total",
                help_about("Hardware monitor for joules used so far", a.element),
                MetricType::Counter,
                Scale::Over(MICRO),
            ),
        )
    } else if !same_str(a.sensor_type, "power") {
        None
    } else if same_str(a.element, "accuracy") {
        Some(
            emit(
                a,
                "",
                "Hardware monitor power meter accuracy, as a ratio".to_owned(),
                MetricType::Gauge,
                Scale::Over(MICRO),
            ),
        )
    } else if same_str(a.element, "average_interval") || same_str(
        a.element,
        "average_interval_min",
    ) || same_str(a.element, "average_interval_max") {
        Some(
            emit(
                a,
                "_seconds",
                help_about("Hardware monitor power usage update interval", a.element),
                MetricType::Gauge,
                Scale::TimesThousandth,
            ),
        )
    } else {
        Some(
            emit(
                a,
                "_watt",
                help_about("Hardware monitor for power usage in watts", a.element),
                MetricType::Gauge,
                Scale::Over(MICRO),
            ),
        )
    }
}

/// Whether a frequency: those have a rule of their own.
pub open spec fn is_frequency(a: TypedView) -> bool {
    a.sensor_type == "freq"@ && a.element == "input"@
}

/// A frequency counts only where the sensor has a label, which then takes the
/// place of the sensor's name.
pub open spec fn frequency(a: TypedView) -> Option<EmissionView> {
    match a.label {
        Some(label) => Some(
            emission(
                TypedView { sensor: cleaned(label), ..a },
                "_freq_mhz"@,
                "Hardware monitor for GPU frequency in MHz"@,
                MetricType::Gauge,
                Scale::Over(MICRO),
            ),
        ),
        None => None,
    }
}

/// The fan and humidity rules; `None` where none applies.
pub open spec fn fan_humidity(a: TypedView) -> Option<EmissionView> {
    if a.sensor_type == "humidity"@ {
        Some(
            emission(
                a,
                ""@,
                about(
                    "Hardware monitor for humidity, as a ratio (multiply with 100.0 to get the humidity as a percentage)"@,
                    a.element,
                ),
                MetricType::Gauge,
                Scale::Over(MICRO),
            ),
        )
    } else if a.sensor_type == "fan"@ && (a.element == "input"@ || a.element == "min"@ || a.element
        == "max"@ || a.element == "target"@) {
        Some(
            emission(
                a,
                "_rpm"@,
                about("Hardware monitor for fan revolutions per minute"@, a.element),
                MetricType::Gauge,
                Scale::Unit,
            ),
        )
    } else {
        None
    }
}

fn emit_frequency(a: &TypedEmit<'_>) -> (r: Option<Emission>)
    ensures
        match r {
            Some(e) => frequency(a@) == Some(e@),
            None => frequency(a@) is None,
        },
{
    match a.label {
        Some(label) => {
            let sensor = clean_metric_name(label);
            let b = TypedEmit {
                sensor_type: a.sensor_type,
                element: a.element,
                name: a.name,
                number: a.number,
                chip: a.chip,
                sensor: sensor.as_str(),
                label: a.label,
            };
            Some(
                emit(
                    &b,
                    "_freq_mhz",
                    "Hardware monitor for GPU frequency in MHz".to_owned(),
                    MetricType::Gauge,
                    Scale::Over(MICRO),
                ),
            )
        },
        None => None,
    }
}

fn emit_fan_humidity(a: &TypedEmit<'_>) -> (r: Option<Emission>)
    ensures
        match r {
            Some(e) => fan_humidity(a@) == Some(e@),
            None => fan_humidity(a@) is None,
        },
{
    if same_str(a.sensor_type, "humidity") {
        Some(
            emit(
                a,
                "",
                help_about(
                    "Hardware monitor for humidity, as a ratio (multiply with 100.0 to get the humidity as a percentage)",
                    a.element,
                ),
                MetricType::Gauge,
                Scale::Over(MICRO),
            ),
        )
    } else if same_str(a.sensor_type, "fan") && (same_str(a.element, "input") || same_str(
        a.element,
        "min",
    ) || same_str(a.element, "max") || same_str(a.element, "target")) {
        Some(
            emit(
                a,
                "_rpm",
                help_about("Hardware monitor for fan revolutions per minute", a.element),
                MetricType::Gauge,
                Scale::Unit,
            ),
        )
    } else {
        None
    }
}

/// The sample that a numeric property comes to.
pub open spec fn typed(a: TypedView) -> Option<EmissionView> {
    if a.element == "fault"@ || a.element == "alarm"@ {
        // Unit-less status flags.
        Some(
            emission(
                a,
                ""@,
                about("Hardware sensor "@ + a.element + " status"@, a.sensor_type),
                MetricType::Gauge,
                Scale::Unit,
            ),
        )
    } else if a.element == "beep"@ {
        Some(
            emission(
                a,
                "_enabled"@,
                "Hardware monitor sensor has beeping enabled"@,
                MetricType::Gauge,
                Scale::Unit,
            ),
        )
    } else if voltage_current_temp(a) is Some {
        voltage_current_temp(a)
    } else if energy_power(a) is Some {
        energy_power(a)
    } else if is_frequency(a) {
        frequency(a)
    } else if fan_humidity(a) is Some {
        fan_humidity(a)
    } else {
        Some(
            emission(
                a,
                ""@,
                "Hardware monitor "@ + a.sensor_type + " element "@ + a.element,
                MetricType::Gauge,
                Scale::Unit,
            ),
        )
    }
}

fn emit_typed(a: &TypedEmit<'_>) -> (r: Option<Emission>)
    ensures
        match r {
            Some(e) => typed(a@) == Some(e@),
            None => typed(a@) is None,
        },
{
    if same_str(a.element, "fault") || same_str(a.element, "alarm") {
        let mut before = "Hardware sensor ".to_owned();
        before.push_str(a.element);
        before.push_str(" status");
        return Some(
            emit(
                a,
                "",
                help_about(before.as_str(), a.sensor_type),
                MetricType::Gauge,
                Scale::Unit,
            ),
        );
    }
    if same_str(a.element, "beep") {
        return Some(
            emit(
                a,
                "_enabled",
                "Hardware monitor sensor has beeping enabled".to_owned(),
                MetricType::Gauge,
                Scale::Unit,
            ),
        );
    }
    match emit_voltage_current_temp(a) {
        Some(e) => {
            return Some(e);
        },
        None => {},
    }
    match emit_energy_power(a) {
        Some(e) => {
            return Some(e);
        },
        None => {},
    }
    if same_str(a.sensor_type, "freq") && same_str(a.element, "input") {
        return emit_frequency(a);
    }
    match emit_fan_humidity(a) {
        Some(e) => {
            return Some(e);
        },
        None => {},
    }
    // Fallback: emit the parsed number as a unit-less gauge.
    let mut help = "Hardware monitor ".to_owned();
    help.push_str(a.sensor_type);
    help.push_str(" element ");
    help.push_str(a.element);
    Some(emit(a, "", help, MetricType::Gauge, Scale::Unit))
}

/// The name of the metric of a property, without its unit. `input` is the
/// primary value and shows in the name only where the sensor has a bare
/// reading too.
pub open spec fn element_name(
    sensor_type: Seq<char>,
    element: Seq<char>,
    props: Props,
) -> Seq<char> {
    let prefix = "node_hwmon_"@ + sensor_type;
    if element == "input"@ {
        if order::has_key(props, ""@) {
            prefix + "_input"@
        } else {
            prefix
        }
    } else if element.len() > 0 {
        prefix.push('_') + cleaned(element)
    } else {
        prefix
    }
}

/// The sample that the property `element` comes to. The label is no number,
/// and neither may be what the file holds: those come to none.
pub open spec fn element_emission(
    chip: Seq<char>,
    sensor: Seq<char>,
    sensor_type: Seq<char>,
    props: Props,
    element: Seq<char>,
    raw: Seq<char>,
) -> Option<EmissionView> {
    if element == "label"@ || !number::is_float(raw) {
        None
    } else {
        typed(
            TypedView {
                sensor_type,
                element,
                name: element_name(sensor_type, element, props),
                number: raw,
                chip,
                sensor,
                label: order::get(props, "label"@),
            },
        )
    }
}

/// The samples that the first `n` properties of a sensor come to.
pub open spec fn element_emissions(
    chip: Seq<char>,
    sensor: Seq<char>,
    sensor_type: Seq<char>,
    props: Props,
    n: int,
) -> Seq<EmissionView>
    decreases n,
{
    if n <= 0 {
        seq![]
    } else {
        let before = element_emissions(chip, sensor, sensor_type, props, n - 1);
        match element_emission(
            chip,
            sensor,
            sensor_type,
            props,
            props[n - 1].0,
            props[n - 1].1,
        ) {
            Some(e) => before.push(e),
            None => before,
        }
    }
}

/// The sample that carries the label of a sensor.
pub open spec fn label_emission(
    chip: Seq<char>,
    sensor: Seq<char>,
    label: Seq<char>,
) -> EmissionView {
    EmissionView {
        name: "node_hwmon_sensor_label"@,
        help: "Label for given chip and sensor"@,
        mtype: MetricType::Gauge,
        sample: sensor_sample(ValueView::unsigned(1), chip, sensor).with_label(
            "label"@,
            sanitized(label),
        ),
    }
}

/// The one sample of a sensor that is a single setting, where the type of the
/// sensor says that it is one.
pub open spec fn setting_emissions(
    chip: Seq<char>,
    sensor: Seq<char>,
    sensor_type: Seq<char>,
    props: Props,
) -> Seq<EmissionView> {
    let bare = order::get(props, ""@);
    if sensor_type == "beep_enable"@ {
        seq![
            EmissionView {
                name: "node_hwmon_beep_enabled"@,
                help: "Hardware beep enabled"@,
                mtype: MetricType::Gauge,
                sample: sensor_sample(ValueView::flag(bare == Some("1"@)), chip, sensor),
            },
        ]
    } else if bare is None || !number::is_float(bare->0) {
        seq![]
    } else if sensor_type == "vrm"@ {
        seq![
            EmissionView {
                name: "node_hwmon_voltage_regulator_version"@,
                help: "Hardware voltage regulator"@,
                mtype: MetricType::Gauge,
                sample: sensor_sample(ValueView::decimal(bare->0), chip, sensor),
            },
        ]
    } else {
        seq![
            EmissionView {
                name: "node_hwmon_update_interval_seconds"@,
                help: "Hardware monitor update interval"@,
                mtype: MetricType::Gauge,
                sample: sensor_sample(
                    ValueView::decimal(bare->0).scaled(Scale::TimesThousandth),
                    chip,
                    sensor,
                ),
            },
        ]
    }
}

/// Whether sensors of the type are single settings.
pub open spec fn is_setting(sensor_type: Seq<char>) -> bool {
    sensor_type == "beep_enable"@ || sensor_type == "vrm"@ || sensor_type == "update_interval"@
}

/// The samples that a sensor comes to, in order: its label, then either its
/// one setting or its numeric properties.
pub open spec fn sensor_emissions(
    chip: Seq<char>,
    sensor: Seq<char>,
    props: Props,
) -> Seq<EmissionView> {
    match exploded(sensor) {
        None => seq![],
        Some((sensor_type, _, _)) => {
            let label = match order::get(props, "label"@) {
                Some(text) => seq![label_emission(chip, sensor, text)],
                None => seq![],
            };
            if is_setting(sensor_type) {
                label + setting_emissions(chip, sensor, sensor_type, props)
            } else {
                label + element_emissions(chip, sensor, sensor_type, props, props.len() as int)
            }
        },
    }
}

fn emit_setting(
    out: &mut Vec<Emission>,
    chip: &str,
    sensor: &str,
    sensor_type: &str,
    props: &Vec<(String, String)>,
)
    requires
        is_setting(sensor_type@),
    ensures
        order::views(final(out)@) == order::views(old(out)@) + setting_emissions(
            chip@,
            sensor@,
            sensor_type@,
            prop_views(props@),
        ),
{
    let ghost before = order::views(out@);
    let bare = get_prop(props, "");
    if same_str(sensor_type, "beep_enable") {
        let on = match bare {
            Some(text) => same_str(text, "1"),
            None => false,
        };
        let e = Emission {
            name: "node_hwmon_beep_enabled".to_owned(),
            help: "Hardware beep enabled".to_owned(),
            mtype: MetricType::Gauge,
            sample: sample(Value::flag(on), chip, sensor),
        };
        out.push(e);
        assert(order::views(out@) =~= before + seq![e@]);
        return ;
    }
    let text = match bare {
        Some(text) => text,
        None => {
            assert(before + seq![] =~= before);
            return ;
        },
    };
    if !float_literal(chars_of(text).as_slice()) {
        assert(before + seq![] =~= before);
        return ;
    }
    let value = Value::decimal(text.to_owned());
    let e = if same_str(sensor_type, "vrm") {
        Emission {
            name: "node_hwmon_voltage_regulator_version".to_owned(),
            help: "Hardware voltage regulator".to_owned(),
            mtype: MetricType::Gauge,
            sample: sample(value, chip, sensor),
        }
    } else {
        Emission {
            name: "node_hwmon_update_interval_seconds".to_owned(),
            help: "Hardware monitor update interval".to_owned(),
            mtype: MetricType::Gauge,
            sample: sample(value.scaled(Scale::TimesThousandth), chip, sensor),
        }
    };
    out.push(e);
    assert(order::views(out@) =~= before + seq![e@]);
}

fn metric_name(sensor_type: &str, element: &str, props: &Vec<(String, String)>) -> (r: String)
    ensures
        r@ == element_name(sensor_type@, element@, prop_views(props@)),
{
    let mut name = "node_hwmon_".to_owned();
    name.push_str(sensor_type);
    if same_str(element, "input") {
        if get_prop(props, "").is_some() {
            name.push_str("_input");
        }
    } else if !element.is_empty() {
        name.push('_');
        name.push_str(clean_metric_name(element).as_str());
    }
    name
}

fn emit_element(
    chip: &str,
    sensor: &str,
    sensor_type: &str,
    props: &Vec<(String, String)>,
    element: &str,
    raw: &str,
) -> (r: Option<Emission>)
    ensures
        match r {
            Some(e) => element_emission(
                chip@,
                sensor@,
                sensor_type@,
                prop_views(props@),
                element@,
                raw@,
            ) == Some(e@),
            None => element_emission(
                chip@,
                sensor@,
                sensor_type@,
                prop_views(props@),
                element@,
                raw@,
            ) is None,
        },
{
    if same_str(element, "label") || !float_literal(chars_of(raw).as_slice()) {
        return None;
    }
    let name = metric_name(sensor_type, element, props);
    emit_typed(
        &TypedEmit {
            sensor_type,
            element,
            name: name.as_str(),
            number: raw,
            chip,
            sensor,
            label: get_prop(props, "label"),
        },
    )
}

/// Adds the samples of one sensor to `out`.
fn emit_sensor(
    out: &mut Vec<Emission>,
    chip: &str,
    sensor: &str,
    props: &Vec<(String, String)>,
)
    ensures
        order::views(final(out)@) == order::views(old(out)@) + sensor_emissions(
            chip@,
            sensor@,
            prop_views(props@),
        ),
{
    let ghost before = order::views(out@);
    let ghost all = prop_views(props@);
    let sensor_type = match explode_sensor(sensor) {
        Some((sensor_type, _)) => sensor_type,
        None => {
            assert(before + seq![] =~= before);
            return ;
        },
    };
    let ghost label = match order::get(all, "label"@) {
        Some(text) => seq![label_emission(chip@, sensor@, text)],
        None => seq![],
    };
    match get_prop(props, "label") {
        Some(text) => {
            let e = Emission {
                name: "node_hwmon_sensor_label".to_owned(),
                help: "Label for given chip and sensor".to_owned(),
                mtype: MetricType::Gauge,
                sample: sample(Value::unsigned(1), chip, sensor).with_label(
                    "label",
                    sanitize_utf8(text).as_str(),
                ),
            };
            out.push(e);
            assert(order::views(out@) =~= before + seq![e@]);
        },
        None => {
            assert(before + seq![] =~= before);
        },
    }
    assert(order::views(out@) =~= before + label);
    if same_str(sensor_type, "beep_enable") || same_str(sensor_type, "vrm") || same_str(
        sensor_type,
        "update_interval",
    ) {
        emit_setting(out, chip, sensor, sensor_type, props);
        assert(order::views(out@) =~= before + (label + setting_emissions(
            chip@,
            sensor@,
            sensor_type@,
            all,
        )));
        return ;
    }
    let mut i: usize = 0;
    while i < props.len()
        invariant
            i <= props@.len(),
            all == prop_views(props@),
            order::views(out@) == before + (label + element_emissions(
                chip@,
                sensor@,
                sensor_type@,
                all,
                i as int,
            )),
        decreases props@.len() - i,
    {
        let ghost had = order::views(out@);
        let ghost done = element_emissions(chip@, sensor@, sensor_type@, all, i as int);
        assert(all[i as int] == (props@[i as int].0@, props@[i as int].1@));
        match emit_element(
            chip,
            sensor,
            sensor_type,
            props,
            props[i].0.as_str(),
            props[i].1.as_str(),
        ) {
            Some(e) => {
                out.push(e);
                assert(order::views(out@) =~= had.push(e@));
                assert(had.push(e@) =~= before + (label + done.push(e@)));
            },
            None => {},
        }
        i = i + 1;
    }
}

// ---------------------------------------------------------------------- chips

/// A chip: a directory under `/sys/class/hwmon`.
#[derive(Debug, Clone)]
pub struct HwmonChip {
    /// The name of the directory, empty where it is not UTF-8.
    pub dir: String,
    /// The bytes of that name, by which the chips are ordered.
    pub dir_bytes: Vec<u8>,
    /// The names of the directory that the `device` link leads to and of the
    /// one above it, where the link can be resolved. A name that is missing is
    /// empty.
    pub device: Option<(String, String)>,
    /// The contents of the `name` file.
    pub name: Option<String>,
    /// The files of the directory, where it can be listed.
    pub files: Option<Vec<SensorFile>>,
    /// The files of the `device` directory, none where it cannot be listed.
    pub device_files: Vec<SensorFile>,
}

/// What a [`HwmonChip`] says.
pub struct ChipView {
    pub dir: Seq<char>,
    pub dir_bytes: Seq<u8>,
    pub device: Option<(Seq<char>, Seq<char>)>,
    pub name: Option<Seq<char>>,
    pub files: Option<Seq<SensorFileView>>,
    pub device_files: Seq<SensorFileView>,
}

impl View for HwmonChip {
    type V = ChipView;

    open spec fn view(&self) -> ChipView {
        ChipView {
            dir: self.dir@,
            dir_bytes: self.dir_bytes@,
            device: match self.device {
                Some((name, parent)) => Some((name@, parent@)),
                None => None,
            },
            name: text::opt_view(self.name),
            files: match self.files {
                Some(files) => Some(order::views(files@)),
                None => None,
            },
            device_files: order::views(self.device_files@),
        }
    }
}

impl Ordered for HwmonChip {
    open spec fn less(a: ChipView, b: ChipView) -> bool {
        order::bytes_less(a.dir_bytes, b.dir_bytes)
    }

    fn before(&self, other: &Self) -> (r: bool) {
        bytes_before(self.dir_bytes.as_slice(), other.dir_bytes.as_slice())
    }
}

/// The chip's label: what the `device` link tells, else what the `name` file
/// tells, else the directory. A chip may have none.
pub open spec fn chip_label(chip: ChipView) -> Option<Seq<char>> {
    if chip.device is Some && cleaned((chip.device->0).0).len() > 0 {
        let (name, parent) = chip.device->0;
        if cleaned(parent).len() > 0 {
            Some(cleaned(parent).push('_') + cleaned(name))
        } else {
            Some(cleaned(name))
        }
    } else if chip_name(chip.name) is Some {
        chip_name(chip.name)
    } else if cleaned(chip.dir).len() > 0 {
        Some(cleaned(chip.dir))
    } else {
        None
    }
}

/// Derives the chip label.
pub fn hwmon_chip_label(chip: &HwmonChip) -> (r: Option<String>)
    ensures
        match r {
            Some(label) => chip_label(chip@) == Some(label@),
            None => chip_label(chip@) is None,
        },
{
    match &chip.device {
        Some((name, parent)) => {
            let clean_name = clean_metric_name(name.as_str());
            if !clean_name.as_str().is_empty() {
                let mut label = clean_metric_name(parent.as_str());
                if label.as_str().is_empty() {
                    return Some(clean_name);
                }
                label.push('_');
                label.push_str(clean_name.as_str());
                return Some(label);
            }
        },
        None => {},
    }
    match read_name_file(&chip.name) {
        Some(name) => {
            return Some(name);
        },
        None => {},
    }
    let label = clean_metric_name(chip.dir.as_str());
    if label.as_str().is_empty() {
        None
    } else {
        Some(label)
    }
}

/// The sample that carries the name of a chip.
pub open spec fn chip_name_emission(chip: Seq<char>, name: Seq<char>) -> EmissionView {
    EmissionView {
        name: "node_hwmon_chip_names"@,
        help: "Annotation metric for human-readable chip names"@,
        mtype: MetricType::Gauge,
        sample: SampleView::new(ValueView::unsigned(1)).with_label("chip"@, chip).with_label(
            "chip_name"@,
            name,
        ),
    }
}

/// The samples of the first `n` sensors of `data`.
pub open spec fn data_emissions(chip: Seq<char>, data: SensorData, n: int) -> Seq<EmissionView>
    decreases n,
{
    if n <= 0 {
        seq![]
    } else {
        data_emissions(chip, data, n - 1) + sensor_emissions(chip, data[n - 1].0, data[n - 1].1)
    }
}

/// The sensors of a chip: what its files say, and after them those of its
/// device.
pub open spec fn chip_data(chip: ChipView) -> SensorData {
    with_files(with_files(seq![], chip.files->0), chip.device_files)
}

/// The samples of a chip: its name, then its sensors. A chip that has no label
/// or cannot be listed has none.
pub open spec fn chip_emissions(chip: ChipView) -> Seq<EmissionView> {
    if chip_label(chip) is None || chip.files is None {
        seq![]
    } else {
        let label = chip_label(chip)->0;
        let name = match chip_name(chip.name) {
            Some(name) => seq![chip_name_emission(label, name)],
            None => seq![],
        };
        name + data_emissions(label, chip_data(chip), chip_data(chip).len() as int)
    }
}

/// Adds the samples of one chip to `out`.
fn update_one_chip(out: &mut Vec<Emission>, chip: &HwmonChip)
    ensures
        order::views(final(out)@) == order::views(old(out)@) + chip_emissions(chip@),
{
    let ghost before = order::views(out@);
    assert(before + seq![] =~= before);
    let label = match hwmon_chip_label(chip) {
        Some(label) => label,
        None => {
            return ;
        },
    };
    let files = match &chip.files {
        Some(files) => files,
        None => {
            return ;
        },
    };
    let mut data: Vec<(String, Vec<(String, String)>)> = Vec::new();
    assert(data_views(data@) =~= seq![]);
    collect_sensor_data(files, &mut data);
    collect_sensor_data(&chip.device_files, &mut data);
    let ghost all = chip_data(chip@);
    assert(data_views(data@) == all);
    let ghost name = match chip_name(chip@.name) {
        Some(name) => seq![chip_name_emission(label@, name)],
        None => seq![],
    };
    match read_name_file(&chip.name) {
        Some(chip_name) => {
            let e = Emission {
                name: "node_hwmon_chip_names".to_owned(),
                help: "Annotation metric for human-readable chip names".to_owned(),
                mtype: MetricType::Gauge,
                sample: Sample::new(Value::unsigned(1)).with_label(
                    "chip",
                    label.as_str(),
                ).with_label("chip_name", chip_name.as_str()),
            };
            out.push(e);
            assert(order::views(out@) =~= before + seq![e@]);
        },
        None => {},
    }
    assert(order::views(out@) =~= before + (name + data_emissions(label@, all, 0)));
    let mut i: usize = 0;
    while i < data.len()
        invariant
            i <= data@.len(),
            all == data_views(data@),
            order::views(out@) == before + (name + data_emissions(label@, all, i as int)),
        decreases data@.len() - i,
    {
        let ghost had = order::views(out@);
        let ghost done = data_emissions(label@, all, i as int);
        assert(all[i as int] == (data@[i as int].0@, prop_views(data@[i as int].1@)));
        emit_sensor(out, label.as_str(), data[i].0.as_str(), &data[i].1);
        proof {
            let more = sensor_emissions(label@, all[i as int].0, all[i as int].1);
            assert(had + more =~= before + (name + (done + more)));
        }
        i = i + 1;
    }
}

// ------------------------------------------------------------------- families

/// `families` with one sample more, in the family of its name. The first
/// sample of a name says what the family is.
pub open spec fn with_emission(
    families: Seq<MetricView<ValueView>>,
    e: EmissionView,
) -> Seq<MetricView<ValueView>> {
    let i = metric::family_index(families, e.name);
    if i < families.len() {
        families.update(i, families[i].with_sample(e.sample))
    } else {
        families.push(
            MetricView::<ValueView>::new(e.name, e.help, e.mtype).with_sample(e.sample),
        )
    }
}

/// The families that samples come to, one after the other.
pub open spec fn grouped(emissions: Seq<EmissionView>) -> Seq<MetricView<ValueView>>
    decreases emissions.len(),
{
    if emissions.len() == 0 {
        seq![]
    } else {
        with_emission(grouped(emissions.drop_last()), emissions.last())
    }
}

/// Hwmon emits many different metric names depending on which chips are
/// present, so the samples are gathered into one family per name.
pub struct FamilyMap {
    pub families: Vec<Metric<Value>>,
}

impl FamilyMap {
    /// Adds a sample to the family of its name.
    pub fn push(&mut self, e: Emission)
        ensures
            metric::metric_views(final(self).families@) == with_emission(
                metric::metric_views(old(self).families@),
                e@,
            ),
    {
        let ghost before = metric::metric_views(self.families@);
        let i = find_family(&self.families, e.name.as_str());
        let ghost sample = e.sample@;
        if i < self.families.len() {
            assert(before[i as int] == self.families@[i as int]@);
            let mut m = self.families.remove(i);
            m.push(e.sample);
            self.families.insert(i, m);
            assert(metric::metric_views(self.families@) =~= before.update(
                i as int,
                before[i as int].with_sample(sample),
            ));
        } else {
            let m = Metric::new(e.name.as_str(), e.help.as_str(), e.mtype).with_sample(e.sample);
            self.families.push(m);
            assert(metric::metric_views(self.families@) =~= before.push(m@));
        }
    }
}

// ------------------------------------------------------------------ collector

/// The samples of the chips, chip after chip.
pub open spec fn all_emissions() -> spec_fn(ChipView) -> Seq<EmissionView> {
    |chip: ChipView| chip_emissions(chip)
}

/// The families of the chips, which are taken in the order of their
/// directories' names.
pub open spec fn hwmon_families(chips: Seq<ChipView>) -> Seq<MetricView<ValueView>> {
    grouped(
        rows::per_row(
            order::sorted(chips, order::order_of::<HwmonChip>()),
            all_emissions(),
        ),
    )
}

/// What collecting gives. No `/sys/class/hwmon` means that this kernel exposes
/// no sensors.
pub open spec fn hwmon_outcome(root: Seq<char>, chips: Listing<HwmonChip>) -> Result<
    Seq<MetricView<ValueView>>,
    Seq<char>,
> {
    match chips {
        Listing::Entries(chips) => Ok(hwmon_families(order::views(chips@))),
        Listing::NotFound => Ok(seq![]),
        Listing::Failed => Err(source::unreadable(root)),
        Listing::Broken => Err(source::broken(root)),
    }
}

fn update_chips(chips: &Vec<HwmonChip>) -> (out: Vec<Emission>)
    ensures
        order::views(out@) == rows::per_row(order::views(chips@), all_emissions()),
{
    let mut out: Vec<Emission> = Vec::new();
    let ghost all = order::views(chips@);
    let mut i: usize = 0;
    assert(order::views(out@) =~= seq![]);
    while i < chips.len()
        invariant
            i <= chips@.len(),
            all == order::views(chips@),
            order::views(out@) == rows::per_row(all.take(i as int), all_emissions()),
        decreases chips@.len() - i,
    {
        proof {
            assert(all.take(i + 1).drop_last() =~= all.take(i as int));
            assert(all[i as int] == chips@[i as int]@);
        }
        update_one_chip(&mut out, &chips[i]);
        i = i + 1;
    }
    assert(all.take(all.len() as int) =~= all);
    out
}

fn group(emissions: Vec<Emission>) -> (r: Vec<Metric<Value>>)
    ensures
        metric::metric_views(r@) == grouped(order::views(emissions@)),
{
    let ghost all = order::views(emissions@);
    let mut map = FamilyMap { families: Vec::new() };
    assert(metric::metric_views(map.families@) =~= seq![]);
    for e in it: emissions
        invariant
            all == order::views(emissions@),
            it.seq() == emissions@,
            metric::metric_views(map.families@) == grouped(all.take(it.index())),
    {
        proof {
            assert(all[it.index()] == e@);
            assert(all.take(it.index() + 1).drop_last() =~= all.take(it.index()));
        }
        map.push(e);
    }
    assert(all.take(all.len() as int) =~= all);
    map.families
}

/// Gathers the families of the chips found under `root`.
pub fn collect_from_root(root: &str, chips: Listing<HwmonChip>) -> (r: Result<
    Vec<Metric<Value>>,
    Error,
>)
    ensures
        metric::outcome(r) == hwmon_outcome(root@, chips),
{
    match chips {
        Listing::Entries(chips) => {
            let ordered = sort(chips);
            Ok(group(update_chips(&ordered)))
        },
        Listing::NotFound => {
            let none: Vec<Metric<Value>> = Vec::new();
            assert(metric::metric_views(none@) =~= seq![]);
            Ok(none)
        },
        Listing::Failed => Err(unreadable_error(root)),
        Listing::Broken => Err(broken_error(root)),
    }
}

pub struct HwmonCollector;

impl HwmonCollector {
    /// The collector's name.
    pub fn name(&self) -> (r: &'static str)
        ensures
            r@ == "hwmon"@,
    {
        "hwmon"
    }

    /// The directory whose subdirectories are the chips.
    pub fn path(&self, cfg: &Config) -> (r: String)
        ensures
            r@ == cfg.sys_path_of("/sys/class/hwmon"@),
    {
        cfg.sys_path("/sys/class/hwmon")
    }

    /// Gathers the families of the chips found under [`Self::path`].
    pub fn collect(&self, cfg: &Config, chips: Listing<HwmonChip>) -> (r: Result<
        Vec<Metric<Value>>,
        Error,
    >)
        ensures
            metric::outcome(r) == hwmon_outcome(
                cfg.sys_path_of("/sys/class/hwmon"@),
                chips,
            ),
    {
        let root = self.path(cfg);
        collect_from_root(root.as_str(), chips)
    }
}

// ------------------------------------------------------------------------ laws

/// Whether the grammar of file names matches `name` with this type, these
/// digits and this property.
pub open spec fn spelled(
    name: Seq<char>,
    sensor_type: Seq<char>,
    digits: Seq<char>,
    property: Option<Seq<char>>,
) -> bool {
    &&& sensor_type.len() > 0
    &&& forall|i: int| 0 <= i < sensor_type.len() ==> !text::is_digit(#[trigger] sensor_type[i])
    &&& forall|i: int| 0 <= i < digits.len() ==> text::is_digit(#[trigger] digits[i])
    &&& match property {
        Some(p) => is_property(p) && name == sensor_type + digits + seq!['_'] + p,
        None => name == sensor_type + digits,
    }
}

/// The number that the digits of a file name spell.
pub open spec fn id_of(digits: Seq<char>) -> Option<u32> {
    if digits.len() == 0 {
        Some(0u32)
    } else {
        number::u32_value(digits)
    }
}

proof fn lemma_last_underscore(s: Seq<char>)
    ensures
        0 <= last_underscore(s),
        last_underscore(s) > 0 ==> last_underscore(s) < s.len() && s[last_underscore(s)] == '_',
        forall|j: int| 1 <= j < s.len() && #[trigger] s[j] == '_' ==> j <= last_underscore(s),
    decreases s.len(),
{
    if s.len() > 1 {
        let t = s.drop_last();
        lemma_last_underscore(t);
        assert forall|j: int| 1 <= j < s.len() && #[trigger] s[j] == '_' implies j
            <= last_underscore(s) by {
            if j < t.len() {
                assert(t[j] == s[j]);
            }
        }
    }
}

/// What a file name is taken apart into is a match of the grammar.
pub proof fn exploding_follows_the_grammar(name: Seq<char>) -> (digits: Seq<char>)
    requires
        exploded(name) is Some,
    ensures
        spelled(
            name,
            (exploded(name)->0).0,
            digits,
            if (exploded(name)->0).2.len() == 0 {
                None
            } else {
                Some((exploded(name)->0).2)
            },
        ),
        id_of(digits) == Some((exploded(name)->0).1),
{
    let n = text::run(name, not_digit());
    let rest = name.skip(n);
    let d = text::run(rest, a_digit());
    let tail = rest.skip(d);
    let u = last_underscore(name.take(n));
    text::lemma_run_meaning(name, not_digit());
    text::lemma_run_meaning(rest, a_digit());
    lemma_last_underscore(name.take(n));
    assert forall|i: int| 0 <= i < n implies !text::is_digit(#[trigger] name[i]) by {
        assert(not_digit()(name[i]));
    }
    assert forall|i: int| 0 <= i < d implies text::is_digit(#[trigger] rest[i]) by {
        assert(a_digit()(rest[i]));
    }
    if tail.len() == 0 {
        assert(name =~= name.take(n) + rest.take(d));
        rest.take(d)
    } else if tail[0] == '_' && is_property(tail.skip(1)) {
        assert(name =~= name.take(n) + rest.take(d) + seq!['_'] + tail.skip(1));
        rest.take(d)
    } else {
        assert(name.take(n)[u] == '_');
        assert(name =~= name.take(u) + seq![] + seq!['_'] + name.skip(u + 1));
        seq![]
    }
}

/// A file name that the grammar matches is taken apart, with the longest type
/// that any match gives it, unless its number is past 32 bits.
pub proof fn names_of_the_grammar_are_exploded(
    name: Seq<char>,
    sensor_type: Seq<char>,
    digits: Seq<char>,
    property: Option<Seq<char>>,
)
    requires
        spelled(name, sensor_type, digits, property),
    ensures
        match exploded(name) {
            Some((longest, _, _)) => sensor_type.len() <= longest.len(),
            None => {
                let rest = name.skip(text::run(name, not_digit()));
                id_of(rest.take(text::run(rest, a_digit()))) is None
            },
        },
{
    let n = text::run(name, not_digit());
    let rest = name.skip(n);
    let d = text::run(rest, a_digit());
    let tail = rest.skip(d);
    let k = sensor_type.len() as int;
    text::lemma_run_meaning(name, not_digit());
    text::lemma_run_meaning(rest, a_digit());
    assert(n >= k) by {
        if n < k {
            assert(name[n] == sensor_type[n]);
        }
    }
    if digits.len() > 0 {
        assert(name[k] == digits[0]);
        assert(n == k) by {
            if n > k {
                assert(not_digit()(name[k]));
            }
        }
        assert forall|j: int| 0 <= j < digits.len() implies a_digit()(#[trigger] rest[j]) by {
            assert(rest[j] == digits[j]);
        }
        if property is Some {
            assert(rest[digits.len() as int] == '_');
        }
        text::lemma_run(rest, a_digit(), digits.len() as int);
        match property {
            Some(p) => {
                assert(tail =~= seq!['_'] + p);
                assert(tail.skip(1) =~= p);
            },
            None => {
                assert(tail.len() == 0);
            },
        }
    } else {
        match property {
            Some(p) => {
                assert(name[k] == '_');
                let u = last_underscore(name.take(n));
                lemma_last_underscore(name.take(n));
                assert(n > k);
                assert(name.take(n)[k] == '_');
                assert(name.skip(u + 1) =~= p.skip(u - k));
                let later = name.skip(u + 1);
                assert forall|j: int| 0 <= j < later.len() implies #[trigger] later[j] != '\n' by {
                    assert(p.contains(p[j + u - k]));
                }
                assert(n < name.len() ==> is_property(later));
            },
            None => {
                assert(n == name.len());
            },
        }
    }
}

/// Every family comes once: a name has one help text and one type, and all its
/// samples are together.
pub proof fn families_have_distinct_names(emissions: Seq<EmissionView>)
    ensures
        metric::distinct_names(grouped(emissions)),
    decreases emissions.len(),
{
    if emissions.len() > 0 {
        families_have_distinct_names(emissions.drop_last());
        let before = grouped(emissions.drop_last());
        let e = emissions.last();
        metric::lemma_family_index_meaning(before, e.name);
        let after = grouped(emissions);
        assert forall|i: int, j: int| 0 <= i < j < after.len() implies (#[trigger] after[i]).name
            != (#[trigger] after[j]).name by {
            if j < before.len() {
                assert(after[i].name == before[i].name && after[j].name == before[j].name);
            } else {
                assert(after[i] == before[i]);
            }
        }
    }
}

proof fn lemma_chip_order()
    ensures
        order::is_order(order::order_of::<HwmonChip>()),
{
    order::byte_order_is_order();
    let less = order::order_of::<HwmonChip>();
    let byte = order::byte_order();
    assert forall|a: ChipView| !#[trigger] less(a, a) by {
        assert(!byte(a.dir_bytes, a.dir_bytes));
    }
    assert forall|a: ChipView, b: ChipView, c: ChipView| #[trigger]
        less(a, b) && #[trigger] less(b, c) implies less(a, c) by {
        assert(byte(a.dir_bytes, b.dir_bytes) && byte(b.dir_bytes, c.dir_bytes));
        assert(byte(a.dir_bytes, c.dir_bytes));
    }
    assert forall|a: ChipView, b: ChipView, c: ChipView|
        !#[trigger] less(a, b) && !#[trigger] less(b, c) implies !less(a, c) by {
        assert(!byte(a.dir_bytes, b.dir_bytes) && !byte(b.dir_bytes, c.dir_bytes));
        assert(!byte(a.dir_bytes, c.dir_bytes));
    }
}

/// One broken chip does not blank the rest of the scrape: the families are
/// those of the other chips.
pub proof fn broken_chips_add_nothing(chips: Seq<ChipView>, i: int)
    requires
        0 <= i < chips.len(),
        chips[i].files is None || chip_label(chips[i]) is None,
    ensures
        hwmon_families(chips) == hwmon_families(chips.remove(i)),
{
    let less = order::order_of::<HwmonChip>();
    lemma_chip_order();
    let k = order::sorting_without(chips, i, less);
    rows::lemma_per_row_insert(
        order::sorted(chips.remove(i), less),
        all_emissions(),
        k,
        chips[i],
    );
}

/// The order in which the directory lists the chips does not matter.
pub proof fn listing_order_does_not_matter(a: Seq<ChipView>, b: Seq<ChipView>)
    requires
        a.to_multiset() == b.to_multiset(),
        forall|i: int, j: int|
            0 <= i < j < a.len() ==> (#[trigger] a[i]).dir_bytes != (#[trigger] a[j]).dir_bytes,
    ensures
        hwmon_families(a) == hwmon_families(b),
{
    let less = order::order_of::<HwmonChip>();
    lemma_chip_order();
    assert forall|i: int, j: int| 0 <= i < j < a.len() implies less(
        #[trigger] a[i],
        #[trigger] a[j],
    ) || less(a[j], a[i]) by {
        order::lemma_bytes_less_total(a[i].dir_bytes, a[j].dir_bytes);
    }
    order::sorting_ignores_order(a, b, less);
}

proof fn lemma_trimmed_part(s: Seq<char>)
    ensures
        trim_end_underscores(s).len() <= s.len(),
        trim_end_underscores(s) == s.take(trim_end_underscores(s).len() as int),
        trim_end_underscores(s).len() > 0 ==> trim_end_underscores(s).last() != '_',
    decreases s.len(),
{
    if s.len() > 0 && s.last() == '_' {
        lemma_trimmed_part(s.drop_last());
        let n = trim_end_underscores(s).len() as int;
        assert(s.drop_last().take(n) =~= s.take(n));
    } else {
        assert(s.take(s.len() as int) =~= s);
    }
}

/// A cleaned name is made of `[a-z0-9:_]` alone and has no underscore at
/// either end.
pub proof fn cleaned_names_are_clean(s: Seq<char>)
    ensures
        forall|i: int|
            0 <= i < cleaned(s).len() ==> 'a' <= #[trigger] cleaned(s)[i] <= 'z' || '0' <= cleaned(
                s,
            )[i] <= '9' || cleaned(s)[i] == ':' || cleaned(s)[i] == '_',
        cleaned(s).len() > 0 ==> cleaned(s)[0] != '_' && cleaned(s).last() != '_',
{
    let t = s.map_values(|c: char| clean_char(c));
    let n = text::run(t, underscore());
    text::lemma_run_meaning(t, underscore());
    lemma_trimmed_part(t.skip(n));
    let r = cleaned(s);
    assert forall|i: int| 0 <= i < r.len() implies 'a' <= #[trigger] r[i] <= 'z' || '0' <= r[i]
        <= '9' || r[i] == ':' || r[i] == '_' by {
        assert(r[i] == t.skip(n)[i]);
        assert(t[n + i] == clean_char(s[n + i]));
    }
    if r.len() > 0 {
        assert(r[0] == t.skip(n)[0]);
        assert(!underscore()(t[n]));
    }
}

/// Cleaning a clean name changes nothing.
pub proof fn cleaning_is_settled(s: Seq<char>)
    ensures
        cleaned(cleaned(s)) == cleaned(s),
{
    cleaned_names_are_clean(s);
    let r = cleaned(s);
    let t = r.map_values(|c: char| clean_char(c));
    assert forall|i: int| 0 <= i < r.len() implies t[i] == r[i] by {
        let c = r[i];
        assert('a' <= c <= 'z' || '0' <= c <= '9' || c == ':' || c == '_');
    }
    assert(t =~= r);
    text::lemma_run(t, underscore(), 0);
    assert(t.skip(0) =~= t);
}

/// The part of a name before its number is told from the number.
proof fn lemma_numbered(t: Seq<char>, n: nat, tail: Seq<char>)
    requires
        t.len() > 0,
        forall|i: int| 0 <= i < t.len() ==> !text::is_digit(#[trigger] t[i]),
        tail.len() == 0 || !text::is_digit(tail[0]),
    ensures
        ({
            let name = t + number::decimal(n) + tail;
            let rest = name.skip(t.len() as int);
            let d = number::decimal(n).len() as int;
            &&& text::run(name, not_digit()) == t.len()
            &&& name.take(t.len() as int) == t
            &&& text::run(rest, a_digit()) == d
            &&& rest.take(d) == number::decimal(n)
            &&& rest.skip(d) == tail
        }),
{
    let digits = number::decimal(n);
    let name = t + digits + tail;
    let k = t.len() as int;
    let d = digits.len() as int;
    let rest = name.skip(k);
    number::decimal_reads_back(n);
    assert forall|j: int| 0 <= j < k implies not_digit()(#[trigger] name[j]) by {
        assert(name[j] == t[j]);
    }
    assert(name[k] == digits[0]);
    assert(text::is_digit(digits[0]));
    text::lemma_run(name, not_digit(), k);
    assert(name.take(k) =~= t);
    assert forall|j: int| 0 <= j < d implies a_digit()(#[trigger] rest[j]) by {
        assert(rest[j] == digits[j]);
        assert(text::is_digit(digits[j]));
    }
    if tail.len() > 0 {
        assert(rest[d] == tail[0]);
    }
    text::lemma_run(rest, a_digit(), d);
    assert(rest.take(d) =~= digits);
    assert(rest.skip(d) =~= tail);
}

/// The file of a property of sensor `<type><n>` is `<type><n>_<property>`, and
/// its name tells the three, whatever the number. Without a property it tells
/// the type and the number.
pub proof fn numbered_names_come_apart(t: Seq<char>, n: u32, property: Seq<char>)
    requires
        t.len() > 0,
        forall|i: int| 0 <= i < t.len() ==> !text::is_digit(#[trigger] t[i]),
        is_property(property),
    ensures
        exploded(t + number::decimal(n as nat) + seq!['_'] + property) == Some((t, n, property)),
        exploded(t + number::decimal(n as nat)) == Some((t, n, Seq::<char>::empty())),
{
    let digits = number::decimal(n as nat);
    let tail = seq!['_'] + property;
    lemma_numbered(t, n as nat, tail);
    lemma_numbered(t, n as nat, seq![]);
    number::decimal_reads_back(n as nat);
    assert(t + digits + seq!['_'] + property =~= t + digits + tail);
    assert(t + digits =~= t + digits + Seq::<char>::empty());
    assert(tail.skip(1) =~= property);
}

/// What is on record under a sensor and a property.
pub open spec fn entry(data: SensorData, sensor: Seq<char>, property: Seq<char>) -> Option<
    Seq<char>,
> {
    order::get(props_of(data, sensor), property)
}

/// Whether the sensors and the properties of each are in order.
pub open spec fn in_order(data: SensorData) -> bool {
    order::rising(data) && forall|i: int| 0 <= i < data.len() ==> order::rising(
        (#[trigger] data[i]).1,
    )
}

proof fn lemma_props_rising(data: SensorData, sensor: Seq<char>)
    requires
        in_order(data),
    ensures
        order::rising(props_of(data, sensor)),
{
    order::lemma_rank_meaning(order::keys(data), sensor, order::key_order());
    if order::has_key(data, sensor) {
        assert(order::rising(data[order::key_rank(data, sensor)].1));
    }
}

/// The type that a name is taken apart into has no digit.
proof fn lemma_type_lacks_digits(name: Seq<char>)
    requires
        exploded(name) is Some,
    ensures
        (exploded(name)->0).0.len() > 0,
        forall|i: int|
            0 <= i < (exploded(name)->0).0.len() ==> !text::is_digit(
                #[trigger] (exploded(name)->0).0[i],
            ),
{
    let digits = exploding_follows_the_grammar(name);
}

/// The name of a sensor: its type and its number.
pub open spec fn sensor_named(name: Seq<char>) -> Seq<char> {
    (exploded(name)->0).0 + number::decimal((exploded(name)->0).1 as nat)
}

/// Files whose names tell different types or different numbers are about
/// different sensors.
pub proof fn sensors_stay_apart(a: Seq<char>, b: Seq<char>)
    requires
        exploded(a) is Some,
        exploded(b) is Some,
        (exploded(a)->0).0 != (exploded(b)->0).0 || (exploded(a)->0).1 != (exploded(b)->0).1,
    ensures
        sensor_named(a) != sensor_named(b),
{
    let (t, n, _) = exploded(a)->0;
    let (u, m, _) = exploded(b)->0;
    lemma_type_lacks_digits(a);
    lemma_type_lacks_digits(b);
    lemma_numbered(t, n as nat, seq![]);
    lemma_numbered(u, m as nat, seq![]);
    assert(sensor_named(a) =~= t + number::decimal(n as nat) + Seq::<char>::empty());
    assert(sensor_named(b) =~= u + number::decimal(m as nat) + Seq::<char>::empty());
    number::decimal_reads_back(n as nat);
    number::decimal_reads_back(m as nat);
}

/// What a file changes on record: the property of its own sensor, and nothing
/// else.
proof fn lemma_filed(data: SensorData, file: SensorFileView, sensor: Seq<char>, property: Seq<char>)
    requires
        in_order(data),
    ensures
        in_order(with_file(data, file)),
        entry(with_file(data, file), sensor, property) == if is_attribute(file.name)
            && file.contents is Some && sensor == sensor_named(file.name) && property == (exploded(
            file.name,
        )->0).2 {
            Some(trim_end_newlines(file.contents->0))
        } else {
            entry(data, sensor, property)
        },
{
    if is_attribute(file.name) && file.contents is Some {
        let own = sensor_named(file.name);
        let told = (exploded(file.name)->0).2;
        let before = props_of(data, own);
        let value = trim_end_newlines(file.contents->0);
        let props = order::put(before, told, value);
        let after = with_file(data, file);
        lemma_props_rising(data, own);
        order::put_keeps_order(before, told, value);
        order::put_then_get(before, told, value, property);
        order::put_keeps_order(data, own, props);
        order::put_then_get(data, own, props, sensor);
        order::lemma_rank_meaning(order::keys(data), own, order::key_order());
        let k = order::key_rank(data, own);
        assert forall|i: int| 0 <= i < after.len() implies order::rising(
            (#[trigger] after[i]).1,
        ) by {
            if i == k {
                assert(after[i] == (own, props));
            } else if order::has_key(data, own) || i < k {
                assert(after[i] == data[i]);
            } else {
                assert(after[i] == data[i - 1]);
            }
        }
    }
}

/// A file `<type><n>_<property>` of a known type is on record under the sensor
/// `<type><n>`, which is what stands before the underscore, and under its
/// property, with its own contents without the line feeds at their end. What is
/// on record under any other sensor or property stays.
pub proof fn every_attribute_has_its_entry(
    data: SensorData,
    t: Seq<char>,
    n: u32,
    property: Seq<char>,
    contents: Seq<char>,
    sensor: Seq<char>,
    other: Seq<char>,
)
    requires
        in_order(data),
        is_sensor_type(t),
        is_property(property),
    ensures
        ({
            let own = t + number::decimal(n as nat);
            let file = SensorFileView {
                name: own + seq!['_'] + property,
                contents: Some(contents),
            };
            let after = with_file(data, file);
            &&& in_order(after)
            &&& entry(after, own, property) == Some(trim_end_newlines(contents))
            &&& sensor != own || other != property ==> entry(after, sensor, other) == entry(
                data,
                sensor,
                other,
            )
        }),
{
    lemma_known_types_lack_digits(t);
    numbered_names_come_apart(t, n, property);
    let own = t + number::decimal(n as nat);
    let file = SensorFileView { name: own + seq!['_'] + property, contents: Some(contents) };
    lemma_filed(data, file, own, property);
    lemma_filed(data, file, sensor, other);
}

proof fn lemma_known_types_lack_digits(t: Seq<char>)
    requires
        is_sensor_type(t),
    ensures
        t.len() > 0,
        forall|i: int| 0 <= i < t.len() ==> !text::is_digit(#[trigger] t[i]),
{
    reveal_strlit("vrm");
    reveal_strlit("beep_enable");
    reveal_strlit("update_interval");
    reveal_strlit("in");
    reveal_strlit("cpu");
    reveal_strlit("fan");
    reveal_strlit("pwm");
    reveal_strlit("temp");
    reveal_strlit("curr");
    reveal_strlit("power");
    reveal_strlit("energy");
    reveal_strlit("humidity");
    reveal_strlit("intrusion");
    reveal_strlit("freq");
}

/// Every file of a list that is an attribute and could be read is on record with
/// its own contents, under its own sensor and property, unless a later file tells
/// the same type, number and property.
pub proof fn every_file_has_its_entry(data: SensorData, files: Seq<SensorFileView>, k: int)
    requires
        in_order(data),
        0 <= k < files.len(),
        is_attribute(files[k].name),
        files[k].contents is Some,
        forall|j: int|
            k < j < files.len() && is_attribute((#[trigger] files[j]).name) && files[j].contents
                is Some ==> exploded(files[j].name) != exploded(files[k].name),
    ensures
        entry(
            with_files(data, files),
            sensor_named(files[k].name),
            (exploded(files[k].name)->0).2,
        ) == Some(trim_end_newlines(files[k].contents->0)),
    decreases files.len(),
{
    let front = files.drop_last();
    let last = files.last();
    let sensor = sensor_named(files[k].name);
    let property = (exploded(files[k].name)->0).2;
    lemma_files_in_order(data, front);
    lemma_filed(with_files(data, front), last, sensor, property);
    assert(files[files.len() - 1] == last);
    if k < front.len() {
        assert(front[k] == files[k]);
        assert forall|j: int|
            k < j < front.len() && is_attribute((#[trigger] front[j]).name)
                && front[j].contents is Some implies exploded(front[j].name) != exploded(
            front[k].name,
        ) by {
            assert(front[j] == files[j]);
        }
        every_file_has_its_entry(data, front, k);
        if is_attribute(last.name) && last.contents is Some && property == (exploded(
            last.name,
        )->0).2 {
            sensors_stay_apart(last.name, files[k].name);
        }
    }
}

proof fn lemma_files_in_order(data: SensorData, files: Seq<SensorFileView>)
    requires
        in_order(data),
    ensures
        in_order(with_files(data, files)),
    decreases files.len(),
{
    if files.len() > 0 {
        lemma_files_in_order(data, files.drop_last());
        lemma_filed(with_files(data, files.drop_last()), files.last(), seq![], seq![]);
    }
}

/// Nothing else is on record: what is there stands in a file that tells its
/// sensor and its property.
pub proof fn every_entry_is_of_a_file(
    files: Seq<SensorFileView>,
    sensor: Seq<char>,
    property: Seq<char>,
) -> (k: int)
    requires
        entry(with_files(seq![], files), sensor, property) is Some,
    ensures
        0 <= k < files.len(),
        is_attribute(files[k].name),
        files[k].contents is Some,
        sensor == sensor_named(files[k].name),
        property == (exploded(files[k].name)->0).2,
        entry(with_files(seq![], files), sensor, property) == Some(
            trim_end_newlines(files[k].contents->0),
        ),
    decreases files.len(),
{
    if files.len() == 0 {
        let none: SensorData = seq![];
        order::lemma_rank_meaning(order::keys(none), sensor, order::key_order());
        let bare: Props = seq![];
        order::lemma_rank_meaning(order::keys(bare), property, order::key_order());
        0
    } else {
        let front = files.drop_last();
        let last = files.last();
        lemma_files_in_order(seq![], front);
        lemma_filed(with_files(seq![], front), last, sensor, property);
        if is_attribute(last.name) && last.contents is Some && sensor == sensor_named(last.name)
            && property == (exploded(last.name)->0).2 {
            files.len() - 1
        } else {
            every_entry_is_of_a_file(front, sensor, property)
        }
    }
}

/// The files of a chip's device count like its own, after them.
pub proof fn device_files_count_too(chip: ChipView)
    requires
        chip.files is Some,
    ensures
        chip_data(chip) == with_files(seq![], chip.files->0 + chip.device_files),
        in_order(chip_data(chip)),
{
    lemma_files_join(seq![], chip.files->0, chip.device_files);
    lemma_files_in_order(seq![], chip.files->0 + chip.device_files);
}

proof fn lemma_files_join(data: SensorData, a: Seq<SensorFileView>, b: Seq<SensorFileView>)
    ensures
        with_files(with_files(data, a), b) == with_files(data, a + b),
    decreases b.len(),
{
    if b.len() == 0 {
        assert(a + b =~= a);
    } else {
        lemma_files_join(data, a, b.drop_last());
        assert((a + b).drop_last() =~= a + b.drop_last());
        assert((a + b).last() == b.last());
    }
}

/// All line feeds at the end of a reading are taken away, and nothing else.
pub proof fn readings_lose_their_line_feeds(s: Seq<char>, end: Seq<char>)
    requires
        s.len() == 0 || s.last() != '\n',
        forall|i: int| 0 <= i < end.len() ==> #[trigger] end[i] == '\n',
    ensures
        trim_end_newlines(s + end) == s,
    decreases end.len(),
{
    let whole = s + end;
    if end.len() == 0 {
        assert(whole =~= s);
    } else {
        let front = end.drop_last();
        assert forall|i: int| 0 <= i < front.len() implies #[trigger] front[i] == '\n' by {
            assert(front[i] == end[i]);
        }
        readings_lose_their_line_feeds(s, front);
        assert(whole.last() == end[end.len() - 1]);
        assert(whole.drop_last() =~= s + front);
    }
}

/// The unit of a reading, as what it counts of the unit that sysfs has: milli-
/// volts, millidegrees, milliamperes and milliseconds are thousandths, micro-
/// joules, microwatts, parts per million and hertz millionths.
pub open spec fn reading_unit(sensor_type: Seq<char>, element: Seq<char>) -> int {
    if element == "fault"@ || element == "alarm"@ || element == "beep"@ {
        1
    } else if sensor_type == "in"@ || sensor_type == "cpu"@ || sensor_type == "curr"@ {
        1_000
    } else if sensor_type == "temp"@ {
        if element == "type"@ {
            1
        } else {
            1_000
        }
    } else if sensor_type == "power"@ {
        if element == "average_interval"@ || element == "average_interval_min"@ || element
            == "average_interval_max"@ {
            1_000
        } else {
            1_000_000
        }
    } else if sensor_type == "energy"@ || sensor_type == "humidity"@ {
        1_000_000
    } else if sensor_type == "freq"@ && element == "input"@ {
        1_000_000
    } else {
        1
    }
}

/// A numeric property is exported in the base unit, with the labels of its own
/// chip and sensor. A frequency needs a label, which names the sensor then.
pub proof fn readings_are_in_base_units(a: TypedView)
    ensures
        typed(a) is None <==> a.sensor_type == "freq"@ && a.element == "input"@ && a.label is None,
        typed(a) is Some ==> {
            let e = typed(a)->0;
            &&& quantity::spells_times(
                e.sample.value,
                a.number,
                1,
                reading_unit(a.sensor_type, a.element),
            )
            &&& e.sample.labels == seq![
                ("chip"@, a.chip),
                (
                    "sensor"@,
                    if a.sensor_type == "freq"@ && a.element == "input"@ {
                        cleaned(a.label->0)
                    } else {
                        a.sensor
                    },
                ),
            ]
            &&& e.mtype == if a.sensor_type == "energy"@ && a.element != "fault"@ && a.element
                != "alarm"@ && a.element != "beep"@ {
                MetricType::Counter
            } else {
                MetricType::Gauge
            }
        },
{
    lemma_type_words_differ();
    quantity::literals_are_scaled(a.number, Scale::Unit);
    quantity::literals_are_scaled(a.number, Scale::TimesThousandth);
    quantity::literals_are_scaled(a.number, Scale::Over(1_000_000));
    if typed(a) is Some {
        let e = typed(a)->0;
        assert(e.sample.labels =~= seq![
            ("chip"@, a.chip),
            (
                "sensor"@,
                if a.sensor_type == "freq"@ && a.element == "input"@ {
                    cleaned(a.label->0)
                } else {
                    a.sensor
                },
            ),
        ]);
        let unit = reading_unit(a.sensor_type, a.element);
        let v = e.sample.value;
        assert(unit == 1 ==> v.scale == Scale::Unit);
        assert(unit == 1_000 ==> v.scale == Scale::TimesThousandth);
        assert(unit == 1_000_000 ==> v.scale == Scale::Over(1_000_000));
        assert(quantity::spells_times(v, a.number, 1, unit));
    }
}

proof fn lemma_type_words_differ()
    ensures
        "in"@ != "freq"@,
        "cpu"@ != "freq"@,
        "curr"@ != "freq"@,
        "temp"@ != "freq"@,
        "power"@ != "freq"@,
        "energy"@ != "freq"@,
        "humidity"@ != "freq"@,
        "fan"@ != "freq"@,
        "in"@ != "energy"@,
        "cpu"@ != "energy"@,
        "curr"@ != "energy"@,
        "temp"@ != "energy"@,
        "power"@ != "energy"@,
        "humidity"@ != "energy"@,
        "in"@ != "power"@,
        "cpu"@ != "power"@,
        "curr"@ != "power"@,
        "temp"@ != "power"@,
        "humidity"@ != "power"@,
        "in"@ != "temp"@,
        "cpu"@ != "temp"@,
        "curr"@ != "temp"@,
        "humidity"@ != "temp"@,
        "in"@ != "humidity"@,
        "cpu"@ != "humidity"@,
        "curr"@ != "humidity"@,
        "fan"@ != "humidity"@,
        "fan"@ != "temp"@,
        "fan"@ != "energy"@,
        "fan"@ != "power"@,
        "fan"@ != "in"@,
        "fan"@ != "cpu"@,
        "fan"@ != "curr"@,
        "input"@ != "fault"@,
        "input"@ != "alarm"@,
        "input"@ != "beep"@,
        "accuracy"@ != "average_interval"@,
        "accuracy"@ != "average_interval_min"@,
        "accuracy"@ != "average_interval_max"@,
{
    reveal_strlit("accuracy");
    reveal_strlit("average_interval");
    reveal_strlit("average_interval_min");
    reveal_strlit("average_interval_max");
    assert("accuracy"@.len() == 8 && "average_interval"@.len() == 16
        && "average_interval_min"@.len() == 20 && "average_interval_max"@.len() == 20);
    reveal_strlit("in");
    reveal_strlit("cpu");
    reveal_strlit("fan");
    reveal_strlit("temp");
    reveal_strlit("curr");
    reveal_strlit("power");
    reveal_strlit("energy");
    reveal_strlit("humidity");
    reveal_strlit("freq");
    reveal_strlit("input");
    reveal_strlit("fault");
    reveal_strlit("alarm");
    reveal_strlit("beep");
    assert("in"@[0] == 'i' && "cpu"@[0] == 'c' && "fan"@[0] == 'f' && "temp"@[0] == 't'
        && "curr"@[0] == 'c' && "power"@[0] == 'p' && "energy"@[0] == 'e' && "humidity"@[0] == 'h'
        && "freq"@[0] == 'f' && "fan"@[1] == 'a' && "freq"@[1] == 'r');
    assert("input"@[0] == 'i' && "fault"@[0] == 'f' && "alarm"@[0] == 'a' && "beep"@[0] == 'b');
}

/// The samples of a sensor that is no setting are those of its numeric
/// properties, in the order of the properties, behind its label.
pub proof fn every_reading_is_exported(chip: Seq<char>, sensor: Seq<char>, props: Props)
    requires
        exploded(sensor) is Some,
        !is_setting((exploded(sensor)->0).0),
    ensures
        ({
            let label = order::get(props, "label"@);
            let readings = props.filter_map(
                |p: (Seq<char>, Seq<char>)|
                    element_emission(chip, sensor, (exploded(sensor)->0).0, props, p.0, p.1),
            );
            sensor_emissions(chip, sensor, props) == if label is Some {
                seq![label_emission(chip, sensor, label->0)] + readings
            } else {
                readings
            }
        }),
{
    let t = (exploded(sensor)->0).0;
    lemma_element_emissions(chip, sensor, t, props, props.len() as int);
    assert(props.take(props.len() as int) =~= props);
    let readings = element_emissions(chip, sensor, t, props, props.len() as int);
    assert(Seq::<EmissionView>::empty() + readings =~= readings);
}

proof fn lemma_element_emissions(
    chip: Seq<char>,
    sensor: Seq<char>,
    t: Seq<char>,
    props: Props,
    n: int,
)
    requires
        0 <= n <= props.len(),
    ensures
        element_emissions(chip, sensor, t, props, n) == props.take(n).filter_map(
            |p: (Seq<char>, Seq<char>)| element_emission(chip, sensor, t, props, p.0, p.1),
        ),
    decreases n,
{
    let f = |p: (Seq<char>, Seq<char>)| element_emission(chip, sensor, t, props, p.0, p.1);
    if n > 0 {
        lemma_element_emissions(chip, sensor, t, props, n - 1);
        assert(props.take(n).drop_last() =~= props.take(n - 1));
        assert(props.take(n).last() == props[n - 1]);
        let before = element_emissions(chip, sensor, t, props, n - 1);
        match f(props[n - 1]) {
            Some(e) => {
                assert(before.push(e) =~= before + seq![e]);
            },
            None => {},
        }
    }
}

/// A property that is no label and spells a number has a sample, unless it is a
/// frequency without a label; any other property has none. The sample is the
/// property's own number in the base unit, and carries the sensor's own labels.
pub proof fn every_number_is_exported(
    chip: Seq<char>,
    sensor: Seq<char>,
    t: Seq<char>,
    props: Props,
    element: Seq<char>,
    raw: Seq<char>,
)
    ensures
        ({
            let e = element_emission(chip, sensor, t, props, element, raw);
            let frequency = t == "freq"@ && element == "input"@;
            let label = order::get(props, "label"@);
            &&& e is Some <==> element != "label"@ && number::is_float(raw) && (!frequency || label
                is Some)
            &&& e is Some ==> {
                &&& quantity::spells_times(e->0.sample.value, raw, 1, reading_unit(t, element))
                &&& e->0.sample.labels == seq![
                    ("chip"@, chip),
                    (
                        "sensor"@,
                        if frequency {
                            cleaned(label->0)
                        } else {
                            sensor
                        },
                    ),
                ]
            }
        }),
{
    readings_are_in_base_units(
        TypedView {
            sensor_type: t,
            element,
            name: element_name(t, element, props),
            number: raw,
            chip,
            sensor,
            label: order::get(props, "label"@),
        },
    );
}

/// The one sample of a setting is its bare reading: a flag where the setting
/// enables beeps, otherwise the number, of which an interval is in thousandths.
pub proof fn settings_are_exported(
    chip: Seq<char>,
    sensor: Seq<char>,
    t: Seq<char>,
    props: Props,
)
    requires
        is_setting(t),
    ensures
        ({
            let bare = order::get(props, ""@);
            let made = setting_emissions(chip, sensor, t, props);
            let labels = seq![("chip"@, chip), ("sensor"@, sensor)];
            if t == "beep_enable"@ {
                made.len() == 1 && made[0].name == "node_hwmon_beep_enabled"@
                    && made[0].sample.labels == labels && quantity::stands_for(
                    made[0].sample.value,
                    if bare == Some("1"@) {
                        1
                    } else {
                        0
                    },
                    1,
                )
            } else {
                &&& made.len() == if bare is Some && number::is_float(bare->0) {
                    1int
                } else {
                    0
                }
                &&& made.len() == 1 ==> made[0].sample.labels == labels && quantity::spells_times(
                    made[0].sample.value,
                    bare->0,
                    1,
                    if t == "vrm"@ {
                        1
                    } else {
                        1_000
                    },
                )
                &&& made.len() == 1 ==> made[0].name == if t == "vrm"@ {
                    "node_hwmon_voltage_regulator_version"@
                } else {
                    "node_hwmon_update_interval_seconds"@
                }
            }
        }),
{
    let bare = order::get(props, ""@);
    let made = setting_emissions(chip, sensor, t, props);
    if bare is Some {
        quantity::literals_are_scaled(bare->0, Scale::Unit);
        quantity::literals_are_scaled(bare->0, Scale::TimesThousandth);
    }
    if made.len() == 1 {
        assert(made[0].sample.labels =~= seq![("chip"@, chip), ("sensor"@, sensor)]);
    }
}

/// The samples of the emissions of that name, in order.
pub open spec fn emitted_as(emissions: Seq<EmissionView>, name: Seq<char>) -> Seq<
    SampleView<ValueView>,
> {
    emissions.filter_map(
        |e: EmissionView|
            if e.name == name {
                Some(e.sample)
            } else {
                None
            },
    )
}

proof fn lemma_grouped(emissions: Seq<EmissionView>, name: Seq<char>)
    ensures
        ({
            let families = grouped(emissions);
            let i = metric::family_index(families, name);
            &&& i < families.len() ==> families[i].samples == emitted_as(emissions, name)
            &&& i == families.len() ==> emitted_as(emissions, name).len() == 0
        }),
    decreases emissions.len(),
{
    let families = grouped(emissions);
    if emissions.len() > 0 {
        let front = emissions.drop_last();
        let last = emissions.last();
        let before = grouped(front);
        lemma_grouped(front, name);
        lemma_grouped(front, last.name);
        metric::lemma_family_index_meaning(before, name);
        metric::lemma_family_index_meaning(before, last.name);
        let i = metric::family_index(before, name);
        let j = metric::family_index(before, last.name);
        assert forall|k: int| 0 <= k < before.len() implies (#[trigger] families[k]).name
            == before[k].name by {}
        let had = emitted_as(front, name);
        if last.name == name {
            metric::lemma_family_index(families, name, j);
            assert(had.push(last.sample) =~= had + seq![last.sample]);
            if j == before.len() {
                assert(had =~= seq![]);
            }
        } else if i < before.len() {
            metric::lemma_family_index(families, name, i);
            assert(families[i] == before[i]);
        } else {
            metric::lemma_family_index(families, name, families.len() as int);
        }
    }
}

/// A family holds the samples of all the emissions of its name, in order; it is
/// there where there is one, and the first says what the family is.
pub proof fn families_gather_their_samples(emissions: Seq<EmissionView>)
    ensures
        forall|i: int|
            0 <= i < grouped(emissions).len() ==> (#[trigger] grouped(emissions)[i]).samples
                == emitted_as(emissions, grouped(emissions)[i].name),
        forall|k: int|
            0 <= k < emissions.len() ==> {
                let i = metric::family_index(
                    grouped(emissions),
                    (#[trigger] emissions[k]).name,
                );
                i < grouped(emissions).len() && (comes_first(emissions, k) ==> grouped(
                    emissions,
                )[i].help == emissions[k].help && grouped(emissions)[i].mtype
                    == emissions[k].mtype)
            },
    decreases emissions.len(),
{
    let families = grouped(emissions);
    families_have_distinct_names(emissions);
    assert forall|i: int| 0 <= i < families.len() implies (#[trigger] families[i]).samples
        == emitted_as(emissions, families[i].name) by {
        let name = families[i].name;
        assert forall|j: int| 0 <= j < i implies (#[trigger] families[j]).name != name by {}
        metric::lemma_family_index(families, name, i);
        lemma_grouped(emissions, name);
    }
    if emissions.len() > 0 {
        let front = emissions.drop_last();
        let last = emissions.last();
        let before = grouped(front);
        families_gather_their_samples(front);
        metric::lemma_family_index_meaning(before, last.name);
        let j = metric::family_index(before, last.name);
        assert forall|k: int| 0 <= k < before.len() implies (#[trigger] families[k]).name
            == before[k].name && families[k].help == before[k].help && families[k].mtype
            == before[k].mtype by {}
        assert forall|k: int| 0 <= k < emissions.len() implies {
            let i = metric::family_index(families, (#[trigger] emissions[k]).name);
            i < families.len() && (comes_first(emissions, k) ==> families[i].help
                == emissions[k].help && families[i].mtype == emissions[k].mtype)
        } by {
            let name = emissions[k].name;
            if k < front.len() {
                assert(front[k] == emissions[k]);
                metric::lemma_family_index_meaning(before, name);
                let i = metric::family_index(before, name);
                metric::lemma_family_index(families, name, i);
                if comes_first(emissions, k) {
                    assert forall|m: int| 0 <= m < k implies (#[trigger] front[m]).name
                        != front[k].name by {
                        assert(front[m] == emissions[m]);
                    }
                    assert(comes_first(front, k));
                }
            } else {
                metric::lemma_family_index(families, name, j);
                if j < before.len() && comes_first(emissions, k) {
                    lemma_grouped(front, name);
                    lemma_named_by_one(front, j);
                    let m = choose|m: int| 0 <= m < front.len() && (#[trigger] front[m]).name
                        == before[j].name;
                    assert(emissions[m].name == name);
                }
            }
        }
    }
}

/// Whether no earlier emission has the name of emission `k`.
pub open spec fn comes_first(emissions: Seq<EmissionView>, k: int) -> bool {
    forall|m: int| 0 <= m < k ==> (#[trigger] emissions[m]).name != emissions[k].name
}

/// Every family is named by an emission.
proof fn lemma_named_by_one(emissions: Seq<EmissionView>, i: int)
    requires
        0 <= i < grouped(emissions).len(),
    ensures
        exists|m: int|
            0 <= m < emissions.len() && (#[trigger] emissions[m]).name == grouped(
                emissions,
            )[i].name,
    decreases emissions.len(),
{
    let front = emissions.drop_last();
    let last = emissions.last();
    let before = grouped(front);
    metric::lemma_family_index_meaning(before, last.name);
    assert(emissions[emissions.len() - 1] == last);
    if i < before.len() {
        lemma_named_by_one(front, i);
        let m = choose|m: int| 0 <= m < front.len() && (#[trigger] front[m]).name
            == before[i].name;
        assert(emissions[m] == front[m]);
        assert(grouped(emissions)[i].name == before[i].name);
    }
}

/// A name is cleaned character by character: capitals become small letters, what
/// is none of `[a-z0-9:_]` becomes an underscore, and underscores at the ends go.
pub proof fn names_are_cleaned_by_character(a: Seq<char>, m: Seq<char>, b: Seq<char>)
    requires
        forall|i: int| 0 <= i < a.len() ==> !text::is_ascii_alphanumeric(#[trigger] a[i]) && a[i]
            != ':',
        forall|i: int| 0 <= i < b.len() ==> !text::is_ascii_alphanumeric(#[trigger] b[i]) && b[i]
            != ':',
        m.len() > 0 ==> (text::is_ascii_alphanumeric(m[0]) || m[0] == ':') && (
        text::is_ascii_alphanumeric(m.last()) || m.last() == ':'),
    ensures
        cleaned(a + m + b).len() == m.len(),
        forall|i: int|
            0 <= i < m.len() ==> #[trigger] cleaned(a + m + b)[i] == if 'A' <= m[i] <= 'Z' {
                (m[i] as u32 + 32) as char
            } else if text::is_ascii_alphanumeric(m[i]) || m[i] == ':' {
                m[i]
            } else {
                '_'
            },
{
    let whole = a + m + b;
    let f = |c: char| clean_char(c);
    let t = whole.map_values(f);
    let n = a.len() as int;
    let clean = m.map_values(f);
    let end = b.map_values(f);
    assert forall|j: int| 0 <= j < n implies underscore()(#[trigger] t[j]) by {
        assert(whole[j] == a[j]);
    }
    assert forall|j: int| 0 <= j < end.len() implies #[trigger] end[j] == '_' by {
        assert(!text::is_ascii_alphanumeric(b[j]));
    }
    if m.len() > 0 {
        assert(whole[n] == m[0]);
        text::lemma_run(t, underscore(), n);
        assert(t.skip(n) =~= clean + end);
        assert(clean.last() == clean_char(m.last()));
        lemma_underscores_trimmed(clean, end);
    } else {
        assert forall|j: int| 0 <= j < t.len() implies underscore()(#[trigger] t[j]) by {
            if j >= n {
                assert(whole[j] == b[j - n]);
                assert(t[j] == end[j - n]);
            }
        }
        text::lemma_run(t, underscore(), t.len() as int);
    }
}

proof fn lemma_underscores_trimmed(s: Seq<char>, end: Seq<char>)
    requires
        s.len() > 0,
        s.last() != '_',
        forall|i: int| 0 <= i < end.len() ==> #[trigger] end[i] == '_',
    ensures
        trim_end_underscores(s + end) == s,
    decreases end.len(),
{
    let whole = s + end;
    if end.len() == 0 {
        assert(whole =~= s);
    } else {
        let front = end.drop_last();
        assert forall|i: int| 0 <= i < front.len() implies #[trigger] front[i] == '_' by {
            assert(front[i] == end[i]);
        }
        lemma_underscores_trimmed(s, front);
        assert(whole.last() == end[end.len() - 1]);
        assert(whole.drop_last() =~= s + front);
    }
}

/// A label keeps every character but the control characters below the space,
/// which the replacement character stands for.
pub proof fn labels_keep_their_text(s: Seq<char>)
    ensures
        sanitized(s).len() == s.len(),
        forall|i: int|
            0 <= i < s.len() ==> #[trigger] sanitized(s)[i] == if (s[i] as u32) < 32 {
                '\u{FFFD}'
            } else {
                s[i]
            },
{
}

/// What the name of a reading's metric ends in: its unit, where it has one.
pub open spec fn unit_suffix(sensor_type: Seq<char>, element: Seq<char>) -> Seq<char> {
    if element == "fault"@ || element == "alarm"@ {
        ""@
    } else if element == "beep"@ {
        "_enabled"@
    } else if sensor_type == "in"@ || sensor_type == "cpu"@ {
        "_volts"@
    } else if sensor_type == "temp"@ && element != "type"@ {
        "_celsius"@
    } else if sensor_type == "curr"@ {
        "_amps"@
    } else if sensor_type == "energy"@ {
        "_joule_total"@
    } else if sensor_type == "power"@ {
        if element == "accuracy"@ {
            ""@
        } else if element == "average_interval"@ || element == "average_interval_min"@ || element
            == "average_interval_max"@ {
            "_seconds"@
        } else {
            "_watt"@
        }
    } else if sensor_type == "freq"@ && element == "input"@ {
        "_freq_mhz"@
    } else if sensor_type == "fan"@ && (element == "input"@ || element == "min"@ || element
        == "max"@ || element == "target"@) {
        "_rpm"@
    } else {
        ""@
    }
}

/// The metric of a reading is named by the sensor's type, the property and the
/// unit. `input` is left out of the name where the sensor has no bare reading.
pub proof fn readings_are_named_by_unit(
    chip: Seq<char>,
    sensor: Seq<char>,
    t: Seq<char>,
    props: Props,
    element: Seq<char>,
    raw: Seq<char>,
)
    requires
        element_emission(chip, sensor, t, props, element, raw) is Some,
    ensures
        element_emission(chip, sensor, t, props, element, raw)->0.name == "node_hwmon_"@ + t + (
        if element.len() == 0 || (element == "input"@ && order::get(props, ""@) is None) {
            seq![]
        } else {
            seq!['_'] + cleaned(element)
        }) + unit_suffix(t, element),
{
    lemma_type_words_differ();
    reveal_strlit("input");
    reveal_strlit("_input");
    let a = TypedView {
        sensor_type: t,
        element,
        name: element_name(t, element, props),
        number: raw,
        chip,
        sensor,
        label: order::get(props, "label"@),
    };
    let prefix = "node_hwmon_"@ + t;
    let middle = if element.len() == 0 || (element == "input"@ && order::get(
        props,
        ""@,
    ) is None) {
        seq![]
    } else {
        seq!['_'] + cleaned(element)
    };
    assert(a.name =~= prefix + middle) by {
        if element == "input"@ {
            let none = Seq::<char>::empty();
            names_are_cleaned_by_character(none, element, none);
            assert(none + element + none =~= element);
            assert(cleaned(element) =~= element);
            assert(seq!['_'] + element =~= "_input"@);
        }
    }
    let e = typed(a)->0;
    assert(e.name == a.name + unit_suffix(t, element));
}

/// The samples of a chip are those of its sensors, one sensor after the other,
/// behind the chip's name.
pub proof fn every_sensor_is_exported(chip: ChipView)
    requires
        chip_label(chip) is Some,
        chip.files is Some,
    ensures
        ({
            let label = chip_label(chip)->0;
            let sensors = rows::per_row(
                chip_data(chip),
                |s: (Seq<char>, Props)| sensor_emissions(label, s.0, s.1),
            );
            chip_emissions(chip) == match chip_name(chip.name) {
                Some(name) => seq![chip_name_emission(label, name)] + sensors,
                None => sensors,
            }
        }),
{
    let label = chip_label(chip)->0;
    let data = chip_data(chip);
    lemma_data_emissions(label, data, data.len() as int);
    assert(data.take(data.len() as int) =~= data);
    let sensors = data_emissions(label, data, data.len() as int);
    assert(Seq::<EmissionView>::empty() + sensors =~= sensors);
}

proof fn lemma_data_emissions(label: Seq<char>, data: SensorData, n: int)
    requires
        0 <= n <= data.len(),
    ensures
        data_emissions(label, data, n) == rows::per_row(
            data.take(n),
            |s: (Seq<char>, Props)| sensor_emissions(label, s.0, s.1),
        ),
    decreases n,
{
    if n > 0 {
        lemma_data_emissions(label, data, n - 1);
        assert(data.take(n).drop_last() =~= data.take(n - 1));
        assert(data.take(n).last() == data[n - 1]);
    }
}

/// Every sample of every chip is in the family of its name.
pub proof fn every_chip_is_exported(chips: Seq<ChipView>, c: int, k: int)
    requires
        0 <= c < chips.len(),
        0 <= k < chip_emissions(chips[c]).len(),
    ensures
        ({
            let e = chip_emissions(chips[c])[k];
            let families = hwmon_families(chips);
            let i = metric::family_index(families, e.name);
            i < families.len() && families[i].name == e.name && families[i].samples.contains(
                e.sample,
            )
        }),
{
    let e = chip_emissions(chips[c])[k];
    let less = order::order_of::<HwmonChip>();
    let sorted = order::sorted(chips, less);
    let emissions = rows::per_row(sorted, all_emissions());
    let families = hwmon_families(chips);
    lemma_chip_order();
    order::sorting_orders(chips, less);
    assert(chips.to_multiset().count(chips[c]) > 0) by {
        chips.to_multiset_ensures();
        assert(chips.contains(chips[c]));
    }
    sorted.to_multiset_ensures();
    assert(sorted.contains(chips[c]));
    let r = choose|r: int| 0 <= r < sorted.len() && sorted[r] == chips[c];
    rows::lemma_per_row_contains(sorted, all_emissions(), r, k);
    let m = choose|m: int| 0 <= m < emissions.len() && emissions[m] == e;
    families_gather_their_samples(emissions);
    assert(emissions[m].name == e.name);
    let i = metric::family_index(families, e.name);
    metric::lemma_family_index_meaning(families, e.name);
    let f = |x: EmissionView|
        if x.name == e.name {
            Some(x.sample)
        } else {
            None
        };
    assert(families[i].samples == emitted_as(emissions, e.name));
    assert(f(emissions[m]) == Some(e.sample));
    rows::lemma_filter_map_holds(emissions, f, m);
}

/// The types that are recognised, and no others.
pub proof fn sensor_types_are_known(t: Seq<char>)
    ensures
        is_sensor_type(t) <==> seq![
            "beep_enable"@,
            "cpu"@,
            "curr"@,
            "energy"@,
            "fan"@,
            "freq"@,
            "humidity"@,
            "in"@,
            "intrusion"@,
            "power"@,
            "pwm"@,
            "temp"@,
            "update_interval"@,
            "vrm"@,
        ].contains(t),
{
    let types = seq![
        "beep_enable"@,
        "cpu"@,
        "curr"@,
        "energy"@,
        "fan"@,
        "freq"@,
        "humidity"@,
        "in"@,
        "intrusion"@,
        "power"@,
        "pwm"@,
        "temp"@,
        "update_interval"@,
        "vrm"@,
    ];
    assert(types[0] == "beep_enable"@ && types[1] == "cpu"@ && types[2] == "curr"@ && types[3]
        == "energy"@ && types[4] == "fan"@ && types[5] == "freq"@ && types[6] == "humidity"@
        && types[7] == "in"@ && types[8] == "intrusion"@ && types[9] == "power"@ && types[10]
        == "pwm"@ && types[11] == "temp"@ && types[12] == "update_interval"@ && types[13]
        == "vrm"@);
}

/// A chip is named by the device that it belongs to, with what is above the
/// device before it; failing that by its `name` file, and failing that by its
/// directory. A part that cleaning leaves nothing of does not count.
pub proof fn chips_are_named_by_their_device(chip: ChipView)
    ensures
        ({
            let label = chip_label(chip);
            let device = chip.device is Some && cleaned((chip.device->0).0).len() > 0;
            let file = chip.name is Some && cleaned(text::trim(chip.name->0)).len() > 0;
            &&& device && cleaned((chip.device->0).1).len() > 0 ==> label == Some(
                cleaned((chip.device->0).1) + seq!['_'] + cleaned((chip.device->0).0),
            )
            &&& device && cleaned((chip.device->0).1).len() == 0 ==> label == Some(
                cleaned((chip.device->0).0),
            )
            &&& !device && file ==> label == Some(cleaned(text::trim(chip.name->0)))
            &&& !device && !file && cleaned(chip.dir).len() > 0 ==> label == Some(
                cleaned(chip.dir),
            )
            &&& !device && !file && cleaned(chip.dir).len() == 0 ==> label is None
            &&& chip_name(chip.name) == if file {
                Some(cleaned(text::trim(chip.name->0)))
            } else {
                None
            }
        }),
{
    if chip.name is Some {
        let t = text::trim(chip.name->0);
        if t.len() == 0 {
            let none = Seq::<char>::empty();
            names_are_cleaned_by_character(none, none, none);
            assert(none + none + none =~= t);
        }
    }
    if chip.device is Some {
        let (name, parent) = chip.device->0;
        assert(cleaned(parent).push('_') + cleaned(name) =~= cleaned(parent) + seq!['_'] + cleaned(
            name,
        ));
    }
}

/// The name of a chip and the labels of its sensors are told by samples of 1.
pub proof fn names_are_told_by_labels(
    chip: Seq<char>,
    name: Seq<char>,
    sensor: Seq<char>,
    label: Seq<char>,
)
    ensures
        ({
            let told = chip_name_emission(chip, name);
            let labelled = label_emission(chip, sensor, label);
            &&& told.name == "node_hwmon_chip_names"@
            &&& told.sample.labels == seq![("chip"@, chip), ("chip_name"@, name)]
            &&& quantity::stands_for(told.sample.value, 1, 1)
            &&& labelled.name == "node_hwmon_sensor_label"@
            &&& labelled.sample.labels == seq![
                ("chip"@, chip),
                ("sensor"@, sensor),
                ("label"@, sanitized(label)),
            ]
            &&& quantity::stands_for(labelled.sample.value, 1, 1)
        }),
{
    assert(chip_name_emission(chip, name).sample.labels =~= seq![
        ("chip"@, chip),
        ("chip_name"@, name),
    ]);
    assert(label_emission(chip, sensor, label).sample.labels =~= seq![
        ("chip"@, chip),
        ("sensor"@, sensor),
        ("label"@, sanitized(label)),
    ]);
}

/// A kernel without sensors is no error, a directory that cannot be read is one.
pub proof fn kernels_may_lack_sensors(root: Seq<char>)
    ensures
        hwmon_outcome(root, Listing::NotFound) == Ok::<_, Seq<char>>(
            Seq::<MetricView<ValueView>>::empty(),
        ),
        hwmon_outcome(root, Listing::Failed) is Err,
        hwmon_outcome(root, Listing::Broken) is Err,
{
}

/// Chips that are in the order of their directories' names are taken in that
/// order.
pub proof fn chips_are_taken_in_order(chips: Seq<ChipView>)
    requires
        forall|i: int, j: int|
            0 <= i < j < chips.len() ==> order::bytes_less(
                (#[trigger] chips[i]).dir_bytes,
                (#[trigger] chips[j]).dir_bytes,
            ),
    ensures
        hwmon_families(chips) == grouped(
            rows::per_row(chips, |chip: ChipView| chip_emissions(chip)),
        ),
{
    let less = order::order_of::<HwmonChip>();
    lemma_chip_order();
    assert forall|i: int, j: int| 0 <= i < j < chips.len() implies !less(
        #[trigger] chips[j],
        #[trigger] chips[i],
    ) by {
        assert(less(chips[i], chips[j]));
        if less(chips[j], chips[i]) {
            assert(less(chips[i], chips[i]));
        }
    }
    order::what_is_in_order_stays(chips, less);
}

} // verus!
