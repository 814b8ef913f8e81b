//! `/proc/diskstats`: per-block-device I/O statistics.
//!
//! Emits the standard 11 fields every Linux kernel exposes plus 6
//! discard / flush fields available on kernels of 4.18 and later (when /proc
//! lines carry the extra columns).

use vstd::prelude::*;
use vstd::slice::slice_subrange;

use crate::config::Config;
use crate::error::Error;
use crate::metric;
use crate::metric::{Metric, MetricType, MetricView, Sample, SampleView, Scale, Value, ValueView};
use crate::number;
use crate::number::{parse_u64_fields, push_decimal};
use crate::quantity;
use crate::rows;
use crate::rows::Row;
use crate::source;
use crate::source::{unreadable_error, FileRead, FileView};
use crate::text;
use crate::text::{chars_of, lines_of, push_chars, quoted, same, string_of, words_of};

verus! {

/// Number of bytes per sector. The Linux block layer counts in sectors of
/// this size whatever the hardware's sector size is.
pub const SECTOR_BYTES: u64 = 512;

/// The number of statistics that every kernel gives of a device.
pub const MIN_FIELDS: usize = 11;

/// The number of statistics that have a family.
pub const FAMILIES: usize = 17;

/// Which devices are left out: RAM disks, loop devices, floppies, and the
/// numbered partitions of common block devices. The base devices themselves
/// (`sda`, `nvme0n1`, and so on) are kept.
pub const DEFAULT_EXCLUDE_REGEX: &'static str =
    r"^(z?ram|loop|fd|(h|s|v|xv)d[a-z]|nvme\d+n\d+p)\d+$";

/// What comes of searching `text` for `pattern`: `None` where `pattern` is no
/// regular expression.
pub uninterp spec fn regex_search(pattern: Seq<char>, text: Seq<char>) -> Option<bool>;

/// An IDE, SCSI, virtio or Xen disk without a partition number.
pub open spec fn is_lettered_disk(s: Seq<char>) -> bool {
    ||| s.len() == 3 && (s[0] == 'h' || s[0] == 's' || s[0] == 'v') && s[1] == 'd' && 'a' <= s[2]
        <= 'z'
    ||| s.len() == 4 && s[0] == 'x' && s[1] == 'v' && s[2] == 'd' && 'a' <= s[3] <= 'z'
}

/// A partition of an NVMe namespace up to the partition's number.
pub open spec fn is_nvme_partition(s: Seq<char>) -> bool {
    exists|controller: Seq<char>, namespace: Seq<char>|
        number::is_digits(controller) && number::is_digits(namespace) && s == "nvme"@ + controller
            + "n"@ + namespace + "p"@
}

/// A name that is left out when a number follows it.
pub open spec fn is_numbered_kind(s: Seq<char>) -> bool {
    ||| s == "ram"@
    ||| s == "zram"@
    ||| s == "loop"@
    ||| s == "fd"@
    ||| is_lettered_disk(s)
    ||| is_nvme_partition(s)
}

/// A device of ASCII name that is left out.
pub open spec fn is_numbered_device(s: Seq<char>) -> bool {
    exists|kind: Seq<char>, n: Seq<char>|
        s == #[trigger] (kind + n) && number::is_digits(n) && is_numbered_kind(kind)
}

pub open spec fn is_ascii(s: Seq<char>) -> bool {
    forall|i: int| 0 <= i < s.len() ==> (#[trigger] s[i] as u32) < 128
}

/// Compiles `pattern` with `regex::Regex::new` and searches `text` with
/// `regex::Regex::is_match`. Of `DEFAULT_EXCLUDE_REGEX` it claims in addition
/// that it compiles, and which text of ASCII characters it matches. In other
/// text `\d` stands for any decimal digit of Unicode, of which nothing is
/// claimed.
#[verifier::external_body]
fn search(pattern: &str, text: &str) -> (r: Option<bool>)
    ensures
        r == regex_search(pattern@, text@),
        pattern@ == DEFAULT_EXCLUDE_REGEX@ ==> r is Some,
        pattern@ == DEFAULT_EXCLUDE_REGEX@ && is_ascii(text@) ==> r == Some(
            is_numbered_device(text@),
        ),
{
    match regex::Regex::new(pattern) {
        Ok(re) => Some(re.is_match(text)),
        Err(_) => None,
    }
}

/// Holds of the devices that are left out by default.
pub open spec fn default_excluded() -> spec_fn(Seq<char>) -> bool {
    |device: Seq<char>| regex_search(DEFAULT_EXCLUDE_REGEX@, device) == Some(true)
}

/// Whether `device` is left out by default.
pub fn excluded_by_default(device: &str) -> (r: bool)
    ensures
        r == default_excluded()(device@),
        is_ascii(device@) ==> r == is_numbered_device(device@),
{
    match search(DEFAULT_EXCLUDE_REGEX, device) {
        Some(found) => found,
        None => false,
    }
}

/// One metric family the collector emits, and the conversion of the field
/// that it exports.
pub struct FieldMap {
    pub name: &'static str,
    pub help: &'static str,
    pub mtype: MetricType,
    pub scale: Scale,
}

/// What a [`FieldMap`] says.
#[verifier::ext_equal]
pub struct FieldMapView {
    pub name: Seq<char>,
    pub help: Seq<char>,
    pub mtype: MetricType,
    pub scale: Scale,
}

impl View for FieldMap {
    type V = FieldMapView;

    open spec fn view(&self) -> FieldMapView {
        FieldMapView { name: self.name@, help: self.help@, mtype: self.mtype, scale: self.scale }
    }
}

pub open spec fn field(
    name: Seq<char>,
    help: Seq<char>,
    mtype: MetricType,
    scale: Scale,
) -> FieldMapView {
    FieldMapView { name, help, mtype, scale }
}

/// The families, in the order of the fields that they export. The first 11
/// belong to the fields every kernel exposes; the others are the discard and
/// flush extensions.
pub open spec fn field_maps() -> Seq<FieldMapView> {
    seq![
        field(
            "node_disk_reads_completed_total"@,
            "The total number of reads completed successfully."@,
            MetricType::Counter,
            Scale::Unit,
        ),
        field(
            "node_disk_reads_merged_total"@,
            "The total number of reads merged."@,
            MetricType::Counter,
            Scale::Unit,
        ),
        field(
            "node_disk_read_bytes_total"@,
            "The total number of bytes read successfully."@,
            MetricType::Counter,
            Scale::Times(SECTOR_BYTES),
        ),
        field(
            "node_disk_read_time_seconds_total"@,
            "The total number of seconds spent by all reads."@,
            MetricType::Counter,
            Scale::TimesThousandth,
        ),
        field(
            "node_disk_writes_completed_total"@,
            "The total number of writes completed successfully."@,
            MetricType::Counter,
            Scale::Unit,
        ),
        field(
            "node_disk_writes_merged_total"@,
            "The number of writes merged."@,
            MetricType::Counter,
            Scale::Unit,
        ),
        field(
            "node_disk_written_bytes_total"@,
            "The total number of bytes written successfully."@,
            MetricType::Counter,
            Scale::Times(SECTOR_BYTES),
        ),
        field(
            "node_disk_write_time_seconds_total"@,
            "This is the total number of seconds spent by all writes."@,
            MetricType::Counter,
            Scale::TimesThousandth,
        ),
        field(
            "node_disk_io_now"@,
            "The number of I/Os currently in progress."@,
            MetricType::Gauge,
            Scale::Unit,
        ),
        field(
            "node_disk_io_time_seconds_total"@,
            "Total seconds spent doing I/Os."@,
            MetricType::Counter,
            Scale::TimesThousandth,
        ),
        field(
            "node_disk_io_time_weighted_seconds_total"@,
            "The weighted # of seconds spent doing I/Os."@,
            MetricType::Counter,
            Scale::TimesThousandth,
        ),
        field(
            "node_disk_discards_completed_total"@,
            "The total number of discards completed successfully."@,
            MetricType::Counter,
            Scale::Unit,
        ),
        field(
            "node_disk_discards_merged_total"@,
            "The total number of discards merged."@,
            MetricType::Counter,
            Scale::Unit,
        ),
        field(
            "node_disk_discarded_sectors_total"@,
            "The total number of sectors discarded successfully."@,
            MetricType::Counter,
            Scale::Unit,
        ),
        field(
            "node_disk_discard_time_seconds_total"@,
            "This is the total number of seconds spent by all discards."@,
            MetricType::Counter,
            Scale::TimesThousandth,
        ),
        field(
            "node_disk_flush_requests_total"@,
            "The total number of flush requests completed successfully"@,
            MetricType::Counter,
            Scale::Unit,
        ),
        field(
            "node_disk_flush_requests_time_seconds_total"@,
            "This is the total number of seconds spent by all flush requests."@,
            MetricType::Counter,
            Scale::TimesThousandth,
        ),
    ]
}

/// What each entry of `v` says.
pub open spec fn field_map_views(v: Seq<FieldMap>) -> Seq<FieldMapView> {
    Seq::new(v.len(), |i: int| v[i]@)
}

/// The families, in the order of the fields that they export.
pub fn families() -> (r: Vec<FieldMap>)
    ensures
        field_map_views(r@) == field_maps(),
        r@.len() == FAMILIES,
{
    let out = vec![
        FieldMap {
            name: "node_disk_reads_completed_total",
            help: "The total number of reads completed successfully.",
            mtype: MetricType::Counter,
            scale: Scale::Unit,
        },
        FieldMap {
            name: "node_disk_reads_merged_total",
            help: "The total number of reads merged.",
            mtype: MetricType::Counter,
            scale: Scale::Unit,
        },
        FieldMap {
            name: "node_disk_read_bytes_total",
            help: "The total number of bytes read successfully.",
            mtype: MetricType::Counter,
            scale: Scale::Times(SECTOR_BYTES),
        },
        FieldMap {
            name: "node_disk_read_time_seconds_total",
            help: "The total number of seconds spent by all reads.",
            mtype: MetricType::Counter,
            scale: Scale::TimesThousandth,
        },
        FieldMap {
            name: "node_disk_writes_completed_total",
            help: "The total number of writes completed successfully.",
            mtype: MetricType::Counter,
            scale: Scale::Unit,
        },
        FieldMap {
            name: "node_disk_writes_merged_total",
            help: "The number of writes merged.",
            mtype: MetricType::Counter,
            scale: Scale::Unit,
        },
        FieldMap {
            name: "node_disk_written_bytes_total",
            help: "The total number of bytes written successfully.",
            mtype: MetricType::Counter,
            scale: Scale::Times(SECTOR_BYTES),
        },
        FieldMap {
            name: "node_disk_write_time_seconds_total",
            help: "This is the total number of seconds spent by all writes.",
            mtype: MetricType::Counter,
            scale: Scale::TimesThousandth,
        },
        FieldMap {
            name: "node_disk_io_now",
            help: "The number of I/Os currently in progress.",
            mtype: MetricType::Gauge,
            scale: Scale::Unit,
        },
        FieldMap {
            name: "node_disk_io_time_seconds_total",
            help: "Total seconds spent doing I/Os.",
            mtype: MetricType::Counter,
            scale: Scale::TimesThousandth,
        },
        FieldMap {
            name: "node_disk_io_time_weighted_seconds_total",
            help: "The weighted # of seconds spent doing I/Os.",
            mtype: MetricType::Counter,
            scale: Scale::TimesThousandth,
        },
        FieldMap {
            name: "node_disk_discards_completed_total",
            help: "The total number of discards completed successfully.",
            mtype: MetricType::Counter,
            scale: Scale::Unit,
        },
        FieldMap {
            name: "node_disk_discards_merged_total",
            help: "The total number of discards merged.",
            mtype: MetricType::Counter,
            scale: Scale::Unit,
        },
        FieldMap {
            name: "node_disk_discarded_sectors_total",
            help: "The total number of sectors discarded successfully.",
            mtype: MetricType::Counter,
            scale: Scale::Unit,
        },
        FieldMap {
            name: "node_disk_discard_time_seconds_total",
            help: "This is the total number of seconds spent by all discards.",
            mtype: MetricType::Counter,
            scale: Scale::TimesThousandth,
        },
        FieldMap {
            name: "node_disk_flush_requests_total",
            help: "The total number of flush requests completed successfully",
            mtype: MetricType::Counter,
            scale: Scale::Unit,
        },
        FieldMap {
            name: "node_disk_flush_requests_time_seconds_total",
            help: "This is the total number of seconds spent by all flush requests.",
            mtype: MetricType::Counter,
            scale: Scale::TimesThousandth,
        },
    ];
    assert(field_map_views(out@) =~= field_maps());
    out
}

/// The statistics of one device.
pub struct DiskRow {
    pub device: String,
    pub fields: Vec<u64>,
}

/// What a [`DiskRow`] says.
pub struct DiskRowView {
    pub device: Seq<char>,
    pub fields: Seq<u64>,
}

impl View for DiskRow {
    type V = DiskRowView;

    open spec fn view(&self) -> DiskRowView {
        DiskRowView { device: self.device@, fields: self.fields@ }
    }
}

/// What each row of `v` says.
pub open spec fn row_views(v: Seq<DiskRow>) -> Seq<DiskRowView> {
    Seq::new(v.len(), |i: int| v[i]@)
}

/// What line `i` of `/proc/diskstats` comes to: two device numbers, the
/// device's name, and its statistics. Lines of fewer than two words are blank.
pub open spec fn disk_row(
    excluded: spec_fn(Seq<char>) -> bool,
    i: int,
    line: Seq<char>,
) -> Row<DiskRowView> {
    let words = text::words(line);
    let lineno = number::decimal((i + 1) as nat);
    if words.len() < 2 {
        Row::Skip
    } else if words.len() == 2 {
        Row::Fail("diskstats: line "@ + lineno + " missing device name"@)
    } else if excluded(words[2]) {
        Row::Skip
    } else {
        let fields = words.skip(3);
        let good = number::u64_run(fields);
        if good < fields.len() {
            Row::Fail(
                "diskstats: line "@ + lineno + " field "@ + number::decimal((good + 4) as nat)
                    + " ("@ + text::debug_form(fields[good]) + ")"@,
            )
        } else if fields.len() < MIN_FIELDS {
            Row::Fail(
                "diskstats: device "@ + words[2] + " has "@ + number::decimal(fields.len())
                    + " stat fields, expected at least "@ + number::decimal(MIN_FIELDS as nat),
            )
        } else {
            Row::Keep(DiskRowView { device: words[2], fields: number::u64_values(fields) })
        }
    }
}

pub open spec fn disk_row_at(excluded: spec_fn(Seq<char>) -> bool) -> spec_fn(
    int,
    Seq<char>,
) -> Row<DiskRowView> {
    |i: int, line: Seq<char>| disk_row(excluded, i, line)
}

/// The fewest statistics that any row has.
pub open spec fn fewest_fields(rows: Seq<DiskRowView>) -> nat
    decreases rows.len(),
{
    if rows.len() == 0 {
        0
    } else {
        let last = rows.last().fields.len();
        let n = fewest_fields(rows.drop_last());
        if rows.len() == 1 || last < n {
            last
        } else {
            n
        }
    }
}

/// Whether every row has field `k`.
pub open spec fn field_shared(rows: Seq<DiskRowView>, k: int) -> bool {
    forall|i: int| 0 <= i < rows.len() ==> k < (#[trigger] rows[i]).fields.len()
}

/// The sample of a row in the family of field `k`.
pub open spec fn disk_sample(k: int, row: DiskRowView) -> SampleView<ValueView> {
    SampleView::new(ValueView::unsigned(row.fields[k]).scaled(field_maps()[k].scale)).with_label(
        "device"@,
        row.device,
    )
}

/// The family of field `k`: a sample for every row.
pub open spec fn disk_metric(k: int, rows: Seq<DiskRowView>) -> MetricView<ValueView> {
    let f = field_maps()[k];
    MetricView::new(f.name, f.help, f.mtype).with_samples(
        Seq::new(rows.len(), |i: int| disk_sample(k, rows[i])),
    )
}

/// The families that the rows make: one for each field that every row has, so
/// that no family leaves a device out.
pub open spec fn disk_metrics(rows: Seq<DiskRowView>) -> Seq<MetricView<ValueView>> {
    let n = fewest_fields(rows);
    Seq::new(
        if n < FAMILIES {
            n
        } else {
            FAMILIES as nat
        },
        |k: int| disk_metric(k, rows),
    )
}

/// What `/proc/diskstats` comes to without the devices of which `excluded`
/// holds: the families of its rows, or the message of its first faulty row.
pub open spec fn disk_outcome(
    raw: Seq<char>,
    excluded: spec_fn(Seq<char>) -> bool,
) -> Result<Seq<MetricView<ValueView>>, Seq<char>> {
    match rows::rows(text::lines(raw), disk_row_at(excluded)) {
        Ok(rows) => Ok(disk_metrics(rows)),
        Err(m) => Err(m),
    }
}

/// What each string of `v` says.
pub open spec fn name_views(v: Seq<String>) -> Seq<Seq<char>> {
    Seq::new(v.len(), |i: int| v[i]@)
}

/// Holds of the names in `names`.
pub open spec fn listed(names: Seq<Seq<char>>) -> spec_fn(Seq<char>) -> bool {
    |device: Seq<char>| names.contains(device)
}

fn is_listed(names: &[String], device: &[char]) -> (r: bool)
    ensures
        r == listed(name_views(names@))(device@),
{
    let mut i: usize = 0;
    while i < names.len()
        invariant
            i <= names@.len(),
            forall|j: int| 0 <= j < i ==> #[trigger] names@[j]@ != device@,
        decreases names@.len() - i,
    {
        if same(device, names[i].as_str()) {
            assert(name_views(names@)[i as int] == device@);
            return true;
        }
        i = i + 1;
    }
    proof {
        if name_views(names@).contains(device@) {
            let j = choose|j: int|
                0 <= j < names@.len() && #[trigger] name_views(names@)[j] == device@;
            assert(names@[j]@ != device@);
        }
    }
    false
}

/// What one line comes to, as `disk_row` says.
fn parse_row(i: usize, line: &[char], excluded: &[String]) -> (r: Result<Option<DiskRow>, Error>)
    requires
        i < usize::MAX,
    ensures
        ({
            let row = disk_row(listed(name_views(excluded@)), i as int, line@);
            match r {
                Ok(None) => row == Row::<DiskRowView>::Skip,
                Ok(Some(d)) => row == Row::Keep(d@),
                Err(e) => row == Row::<DiskRowView>::Fail(e@),
            }
        }),
{
    let words = words_of(line);
    assert(text::views(words@).len() == words@.len());
    if words.len() < 2 {
        return Ok(None);
    }
    if words.len() == 2 {
        let mut m = "diskstats: line ".to_owned();
        push_decimal(&mut m, i as u64 + 1);
        m.push_str(" missing device name");
        return Err(Error::new(m));
    }
    let device = words[2];
    assert(text::views(words@)[2] == device@);
    if is_listed(excluded, device) {
        return Ok(None);
    }
    let fields = slice_subrange(words.as_slice(), 3, words.len());
    assert(text::views(fields@) =~= text::views(words@).skip(3));
    match parse_u64_fields(fields) {
        Ok(values) => if values.len() < MIN_FIELDS {
            let mut m = "diskstats: device ".to_owned();
            push_chars(&mut m, device);
            m.push_str(" has ");
            push_decimal(&mut m, values.len() as u64);
            m.push_str(" stat fields, expected at least ");
            push_decimal(&mut m, MIN_FIELDS as u64);
            Err(Error::new(m))
        } else {
            Ok(Some(DiskRow { device: string_of(device), fields: values }))
        },
        Err(k) => {
            let mut m = "diskstats: line ".to_owned();
            push_decimal(&mut m, i as u64 + 1);
            m.push_str(" field ");
            push_decimal(&mut m, k as u64 + 4);
            m.push_str(" (");
            let token = string_of(fields[k]);
            m.push_str(quoted(token.as_str()).as_str());
            m.push_str(")");
            assert(text::views(fields@)[k as int] == token@);
            Err(Error::new(m))
        },
    }
}

/// The rows of the devices that are not in `excluded`.
fn parse_rows(raw: &str, excluded: &[String]) -> (r: Result<Vec<DiskRow>, Error>)
    ensures
        ({
            let rows = rows::rows(text::lines(raw@), disk_row_at(listed(name_views(excluded@))));
            match r {
                Ok(v) => rows == Ok::<_, Seq<char>>(row_views(v@)),
                Err(e) => rows == Err::<Seq<DiskRowView>, _>(e@),
            }
        }),
{
    let chars = chars_of(raw);
    let lines = lines_of(chars.as_slice());
    let ghost all = text::lines(raw@);
    let ghost row = disk_row_at(listed(name_views(excluded@)));
    let mut out: Vec<DiskRow> = Vec::new();
    let mut i: usize = 0;
    assert(row_views(out@) =~= seq![]);
    while i < lines.len()
        invariant
            all == text::lines(raw@),
            row == disk_row_at(listed(name_views(excluded@))),
            text::views(lines@) == all,
            i <= lines@.len(),
            rows::rows(all.take(i as int), row) == Ok::<_, Seq<char>>(row_views(out@)),
        decreases lines@.len() - i,
    {
        proof {
            assert(all[i as int] == lines@[i as int]@);
            rows::lemma_next_row(all, row, i as int);
        }
        let ghost before = row_views(out@);
        match parse_row(i, lines[i], excluded) {
            Ok(Some(d)) => {
                out.push(d);
                assert(row_views(out@) =~= before.push(d@));
            },
            Ok(None) => {},
            Err(e) => {
                proof {
                    rows::lemma_failed_row(all, row, i + 1);
                }
                return Err(e);
            },
        }
        i = i + 1;
    }
    assert(all.take(all.len() as int) =~= all);
    Ok(out)
}

/// The number of families that the rows make.
fn family_count(rows: &Vec<DiskRow>) -> (r: usize)
    ensures
        r == disk_metrics(row_views(rows@)).len(),
        r <= FAMILIES,
{
    let ghost all = row_views(rows@);
    let mut fewest: usize = 0;
    let mut i: usize = 0;
    while i < rows.len()
        invariant
            all == row_views(rows@),
            i <= rows@.len(),
            fewest == fewest_fields(all.take(i as int)),
        decreases rows@.len() - i,
    {
        proof {
            assert(all.take(i + 1).drop_last() =~= all.take(i as int));
        }
        let n = rows[i].fields.len();
        if i == 0 || n < fewest {
            fewest = n;
        }
        i = i + 1;
    }
    assert(all.take(all.len() as int) =~= all);
    if fewest < FAMILIES {
        fewest
    } else {
        FAMILIES
    }
}

/// No row has fewer statistics than the fewest.
proof fn lemma_fewest_fields(rows: Seq<DiskRowView>)
    ensures
        forall|i: int|
            0 <= i < rows.len() ==> fewest_fields(rows) <= (#[trigger] rows[i]).fields.len(),
        rows.len() > 0 ==> exists|i: int|
            0 <= i < rows.len() && fewest_fields(rows) == (#[trigger] rows[i]).fields.len(),
    decreases rows.len(),
{
    if rows.len() > 0 {
        let front = rows.drop_last();
        lemma_fewest_fields(front);
        assert forall|i: int| 0 <= i < rows.len() implies fewest_fields(rows) <= (
        #[trigger] rows[i]).fields.len() by {
            if i < front.len() {
                assert(front[i] == rows[i]);
            }
        }
        if fewest_fields(rows) == rows.last().fields.len() {
            assert(rows[rows.len() - 1] == rows.last());
        } else {
            let i = choose|i: int|
                0 <= i < front.len() && fewest_fields(front) == (#[trigger] front[i]).fields.len();
            assert(rows[i] == front[i]);
        }
    }
}

/// The family of field `k`.
fn metric_of(k: usize, f: &FieldMap, rows: &Vec<DiskRow>) -> (r: Metric<Value>)
    requires
        k < FAMILIES,
        k < fewest_fields(row_views(rows@)),
        f@ == field_maps()[k as int],
    ensures
        r@ == disk_metric(k as int, row_views(rows@)),
{
    let ghost all = row_views(rows@);
    let ghost samples = disk_metric(k as int, all).samples;
    proof {
        lemma_fewest_fields(all);
    }
    let mut m = Metric::new(f.name, f.help, f.mtype);
    let ghost m0 = m@;
    let mut i: usize = 0;
    assert(samples.take(0) =~= seq![]);
    while i < rows.len()
        invariant
            all == row_views(rows@),
            samples == disk_metric(k as int, all).samples,
            forall|j: int| 0 <= j < all.len() ==> k < (#[trigger] all[j]).fields.len(),
            f@ == field_maps()[k as int],
            i <= rows@.len(),
            m@ == m0.with_samples(samples.take(i as int)),
        decreases rows@.len() - i,
    {
        let row = &rows[i];
        assert(all[i as int] == row@);
        m.push(
            Sample::new(Value::unsigned(row.fields[k]).scaled(f.scale)).with_label(
                "device",
                row.device.as_str(),
            ),
        );
        assert(samples.take(i + 1) =~= samples.take(i as int).push(samples[i as int]));
        i = i + 1;
    }
    assert(samples.take(all.len() as int) =~= samples);
    m
}

/// Parses `/proc/diskstats` without the devices named in `excluded`.
pub fn parse_excluding(raw: &str, excluded: &[String]) -> (r: Result<Vec<Metric<Value>>, Error>)
    ensures
        metric::outcome(r) == disk_outcome(raw@, listed(name_views(excluded@))),
{
    let rows = match parse_rows(raw, excluded) {
        Ok(rows) => rows,
        Err(e) => {
            return Err(e);
        },
    };
    let fams = families();
    let n = family_count(&rows);
    let ghost wanted = disk_metrics(row_views(rows@));
    let mut out: Vec<Metric<Value>> = Vec::new();
    let mut k: usize = 0;
    while k < n
        invariant
            k <= n <= FAMILIES,
            wanted == disk_metrics(row_views(rows@)),
            n == wanted.len(),
            fams@.len() == FAMILIES,
            field_map_views(fams@) == field_maps(),
            out@.len() == k,
            forall|j: int| 0 <= j < k ==> (#[trigger] out@[j])@ == wanted[j],
        decreases n - k,
    {
        assert(field_map_views(fams@)[k as int] == fams@[k as int]@);
        out.push(metric_of(k, &fams[k], &rows));
        k = k + 1;
    }
    assert(metric::metric_views(out@) =~= wanted);
    Ok(out)
}

/// The names of the devices in `/proc/diskstats`.
pub open spec fn devices(lines: Seq<Seq<char>>) -> Seq<Seq<char>>
    decreases lines.len(),
{
    if lines.len() == 0 {
        seq![]
    } else {
        let words = text::words(lines.last());
        let before = devices(lines.drop_last());
        if words.len() > 2 {
            before.push(words[2])
        } else {
            before
        }
    }
}

/// Only what `excluded` says of the devices in the file matters.
proof fn lemma_rows_agree(
    lines: Seq<Seq<char>>,
    a: spec_fn(Seq<char>) -> bool,
    b: spec_fn(Seq<char>) -> bool,
)
    requires
        forall|i: int|
            0 <= i < devices(lines).len() ==> a(#[trigger] devices(lines)[i]) == b(
                devices(lines)[i],
            ),
    ensures
        rows::rows(lines, disk_row_at(a)) == rows::rows(lines, disk_row_at(b)),
    decreases lines.len(),
{
    if lines.len() > 0 {
        let before = devices(lines.drop_last());
        assert forall|i: int| 0 <= i < before.len() implies a(#[trigger] before[i]) == b(
            before[i],
        ) by {
            assert(devices(lines)[i] == before[i]);
        }
        lemma_rows_agree(lines.drop_last(), a, b);
        let words = text::words(lines.last());
        if words.len() > 2 {
            assert(devices(lines)[before.len() as int] == words[2]);
        }
    }
}

/// Parses `/proc/diskstats` without the devices that are left out by default.
pub fn parse(raw: &str) -> (r: Result<Vec<Metric<Value>>, Error>)
    ensures
        metric::outcome(r) == disk_outcome(raw@, default_excluded()),
{
    let chars = chars_of(raw);
    let lines = lines_of(chars.as_slice());
    let ghost all = text::lines(raw@);
    let mut excluded: Vec<String> = Vec::new();
    let mut i: usize = 0;
    while i < lines.len()
        invariant
            all == text::lines(raw@),
            text::views(lines@) == all,
            i <= lines@.len(),
            forall|j: int|
                0 <= j < devices(all.take(i as int)).len() && default_excluded()(
                    #[trigger] devices(all.take(i as int))[j],
                ) ==> name_views(excluded@).contains(devices(all.take(i as int))[j]),
            forall|j: int| 0 <= j < excluded@.len() ==> default_excluded()(
                #[trigger] excluded@[j]@,
            ),
        decreases lines@.len() - i,
    {
        let words = words_of(lines[i]);
        let ghost before = devices(all.take(i as int));
        let ghost old_names = name_views(excluded@);
        proof {
            assert(all[i as int] == lines@[i as int]@);
            assert(all.take(i + 1).drop_last() =~= all.take(i as int));
            assert(text::views(words@).len() == words@.len());
        }
        if words.len() > 2 {
            assert(text::views(words@)[2] == words@[2]@);
            let device = string_of(words[2]);
            if excluded_by_default(device.as_str()) {
                excluded.push(device);
                assert(name_views(excluded@)[excluded@.len() - 1] == words@[2]@);
            }
        }
        proof {
            let now = devices(all.take(i + 1));
            assert(forall|j: int|
                0 <= j < old_names.len() ==> name_views(excluded@)[j] == #[trigger] old_names[j]);
            assert forall|j: int|
                0 <= j < now.len() && default_excluded()(#[trigger] now[j]) implies name_views(
                excluded@,
            ).contains(now[j]) by {
                if j < before.len() {
                    assert(now[j] == before[j]);
                    let k = choose|k: int|
                        0 <= k < old_names.len() && #[trigger] old_names[k] == before[j];
                    assert(name_views(excluded@)[k] == before[j]);
                }
            }
        }
        i = i + 1;
    }
    proof {
        assert(all.take(all.len() as int) =~= all);
        let a = listed(name_views(excluded@));
        let b = default_excluded();
        assert forall|j: int| 0 <= j < devices(all).len() implies a(#[trigger] devices(all)[j])
            == b(devices(all)[j]) by {
            let d = devices(all)[j];
            if a(d) {
                let k = choose|k: int|
                    0 <= k < excluded@.len() && #[trigger] name_views(excluded@)[k] == d;
                assert(default_excluded()(excluded@[k]@));
            }
        }
        lemma_rows_agree(all, a, b);
    }
    parse_excluding(raw, excluded.as_slice())
}

/// A device whose ASCII name ends in something other than a digit is never
/// left out: the base devices `sda`, `vdb`, and so on are kept.
pub proof fn base_devices_are_kept(device: Seq<char>)
    requires
        device.len() == 0 || !text::is_digit(device.last()),
    ensures
        !is_numbered_device(device),
{
    if is_numbered_device(device) {
        let (kind, n) = choose|kind: Seq<char>, n: Seq<char>|
            device == #[trigger] (kind + n) && number::is_digits(n) && is_numbered_kind(kind);
        assert(device.last() == n[n.len() - 1]);
    }
}

pub struct DiskstatsCollector;

impl DiskstatsCollector {
    pub fn name(&self) -> (r: &'static str)
        ensures
            r@ == "diskstats"@,
    {
        "diskstats"
    }

    /// The file that the collector reads.
    pub fn path(&self, cfg: &Config) -> (r: String)
        ensures
            r@ == cfg.proc_path_of("/proc/diskstats"@),
    {
        cfg.proc_path("/proc/diskstats")
    }

    /// The metrics, given what came of reading the file.
    pub fn collect(&self, cfg: &Config, read: &FileRead) -> (r: Result<Vec<Metric<Value>>, Error>)
        ensures
            metric::outcome(r) == match read@ {
                FileView::Contents(raw) => disk_outcome(raw, default_excluded()),
                _ => Err(source::unreadable(cfg.proc_path_of("/proc/diskstats"@))),
            },
    {
        match read {
            FileRead::Contents(raw) => parse(raw.as_str()),
            _ => Err(unreadable_error(self.path(cfg).as_str())),
        }
    }
}

/// The fields that every kernel gives always have their families, a later one
/// has its family where every device has the field, and no family leaves a
/// device out.
pub proof fn families_leave_no_device_out(rows: Seq<DiskRowView>)
    requires
        rows.len() > 0,
        forall|i: int| 0 <= i < rows.len() ==> (#[trigger] rows[i]).fields.len() >= MIN_FIELDS,
    ensures
        MIN_FIELDS <= disk_metrics(rows).len() <= FAMILIES,
        forall|k: int|
            0 <= k < FAMILIES ==> (#[trigger] field_shared(rows, k) <==> k < disk_metrics(
                rows,
            ).len()),
        forall|k: int, i: int|
            #![trigger disk_metrics(rows)[k].samples[i]]
            0 <= k < disk_metrics(rows).len() && 0 <= i < rows.len() ==> disk_metrics(
                rows,
            )[k].samples.len() == rows.len() && disk_metrics(rows)[k].samples[i].labels == seq![
                ("device"@, rows[i].device),
            ],
{
    lemma_fewest_fields(rows);
    assert forall|k: int| 0 <= k < FAMILIES implies (#[trigger] field_shared(rows, k) <==> k
        < disk_metrics(rows).len()) by {
        let i = choose|i: int|
            0 <= i < rows.len() && fewest_fields(rows) == (#[trigger] rows[i]).fields.len();
        if field_shared(rows, k) {
            assert(k < rows[i].fields.len());
        }
    }
    assert forall|k: int, i: int|
        #![trigger disk_metrics(rows)[k].samples[i]]
        0 <= k < disk_metrics(rows).len() && 0 <= i < rows.len() implies disk_metrics(
        rows,
    )[k].samples.len() == rows.len() && disk_metrics(rows)[k].samples[i].labels == seq![
        ("device"@, rows[i].device),
    ] by {
        assert(disk_sample(k, rows[i]).labels =~= seq![("device"@, rows[i].device)]);
    }
}

/// Whether a line speaks of a device that is not left out.
pub open spec fn is_device_line(excluded: spec_fn(Seq<char>) -> bool) -> spec_fn(Seq<char>) -> bool {
    |line: Seq<char>| text::words(line).len() >= 3 && !excluded(text::words(line)[2])
}

/// How many of the unit of its family a statistic counts as: a sector is 512
/// bytes, a millisecond a thousandth of a second.
pub open spec fn statistic_unit(k: int) -> (int, int) {
    if k == 2 || k == 6 {
        (512, 1)
    } else if k == 3 || k == 7 || k == 9 || k == 10 || k == 14 || k == 16 {
        (1, 1000)
    } else {
        (1, 1)
    }
}

/// The sample of a device in the family of statistic `k` is the device's own
/// statistic `k`, in the unit of the family.
pub proof fn every_device_has_its_statistics(rows: Seq<DiskRowView>, k: int, i: int)
    requires
        0 <= k < disk_metrics(rows).len(),
        0 <= i < rows.len(),
    ensures
        disk_metrics(rows)[k].samples.len() == rows.len(),
        disk_metrics(rows)[k].samples[i].labels == seq![("device"@, rows[i].device)],
        quantity::stands_for(
            disk_metrics(rows)[k].samples[i].value,
            rows[i].fields[k] * statistic_unit(k).0,
            statistic_unit(k).1,
        ),
{
    assert(disk_sample(k, rows[i]).labels =~= seq![("device"@, rows[i].device)]);
    let n = rows[i].fields[k] as int;
    assert(n * 1 == n && n * 512 * 1 == n * 512);
}

/// The row of a device is two numbers, its name and eleven numbers or more,
/// behind blanks. Every such line is kept, with those numbers, unless the device
/// is left out.
pub proof fn every_device_has_its_row(
    excluded: spec_fn(Seq<char>) -> bool,
    i: int,
    line: Seq<char>,
    head: Seq<Seq<char>>,
    statistics: Seq<Seq<char>>,
)
    requires
        text::words(line) == head + statistics,
        head.len() == 3,
        statistics.len() >= 11,
        forall|j: int|
            0 <= j < statistics.len() ==> number::u64_value(#[trigger] statistics[j]) is Some,
    ensures
        ({
            let row = disk_row(excluded, i, line);
            if excluded(head[2]) {
                row is Skip
            } else {
                row is Keep && row->Keep_0.device == head[2] && row->Keep_0.fields.len()
                    == statistics.len() && forall|j: int|
                    0 <= j < statistics.len() ==> Some(#[trigger] row->Keep_0.fields[j])
                        == number::u64_value(statistics[j])
            }
        }),
{
    let words = text::words(line);
    assert(words[2] == head[2]);
    assert(words.skip(3) =~= statistics);
    number::lemma_u64_run(statistics, statistics.len() as int);
}

/// The rows of devices are those lines, and no others.
proof fn lemma_device_rows(raw: Seq<char>, excluded: spec_fn(Seq<char>) -> bool)
    requires
        disk_outcome(raw, excluded) is Ok,
    ensures
        ({
            let lines = text::lines(raw);
            let at = rows::positions(lines, is_device_line(excluded));
            let all = rows::rows(lines, disk_row_at(excluded))->Ok_0;
            &&& disk_outcome(raw, excluded)->Ok_0 == disk_metrics(all)
            &&& all.len() == at.len()
            &&& forall|i: int|
                0 <= i < at.len() ==> {
                    let words = text::words(#[trigger] lines[at[i]]);
                    &&& words.len() >= 14
                    &&& all[i].device == words[2]
                    &&& all[i].fields.len() == words.len() - 3
                    &&& forall|k: int|
                        0 <= k < all[i].fields.len() ==> Some(#[trigger] all[i].fields[k])
                            == number::u64_value(words[k + 3])
                }
        }),
{
    let lines = text::lines(raw);
    let row = disk_row_at(excluded);
    let p = is_device_line(excluded);
    let at = rows::positions(lines, p);
    let all = rows::rows(lines, row)->Ok_0;
    rows::the_first_fault_fails_the_file(lines, row);
    assert forall|k: int| 0 <= k < lines.len() implies (#[trigger] p(lines[k]) <==> !(row(
        k,
        lines[k],
    ) is Skip)) by {
        assert(!(row(k, lines[k]) is Fail));
    }
    rows::kept_lines_are_the_rows(lines, row, p);
    assert forall|i: int| 0 <= i < at.len() implies {
        let words = text::words(#[trigger] lines[at[i]]);
        &&& words.len() >= 14
        &&& all[i].device == words[2]
        &&& all[i].fields.len() == words.len() - 3
        &&& forall|k: int|
            0 <= k < all[i].fields.len() ==> Some(#[trigger] all[i].fields[k])
                == number::u64_value(words[k + 3])
    } by {
        let words = text::words(lines[at[i]]);
        assert(row(at[i], lines[at[i]]) == Row::Keep(all[i]));
        let fields = words.skip(3);
        number::lemma_u64_run_meaning(fields);
        assert forall|k: int| 0 <= k < all[i].fields.len() implies Some(
            #[trigger] all[i].fields[k],
        ) == number::u64_value(words[k + 3]) by {
            assert(fields[k] == words[k + 3]);
            assert(number::u64_value(fields[k]) is Some);
        }
    }
}

/// Where `/proc/diskstats` parses, each device that is not left out has a sample
/// in every family, in the order of the lines, with the number that stands in its
/// own line. There are eleven families, and a later one where every such line
/// goes far enough.
pub proof fn every_device_line_is_exported(
    raw: Seq<char>,
    excluded: spec_fn(Seq<char>) -> bool,
    k: int,
    i: int,
)
    requires
        disk_outcome(raw, excluded) is Ok,
        0 <= k < 17,
        0 <= i < rows::positions(text::lines(raw), is_device_line(excluded)).len(),
    ensures
        ({
            let families = disk_outcome(raw, excluded)->Ok_0;
            let lines = text::lines(raw);
            let at = rows::positions(lines, is_device_line(excluded));
            let words = text::words(lines[at[i]]);
            &&& k < families.len() <==> forall|j: int|
                0 <= j < at.len() ==> text::words(#[trigger] lines[at[j]]).len() >= k + 4
            &&& k < 11 ==> k < families.len()
            &&& k < families.len() ==> {
                &&& families[k].samples.len() == at.len()
                &&& families[k].samples[i].labels == seq![("device"@, words[2])]
                &&& number::u64_value(words[k + 3]) is Some
                &&& quantity::stands_for(
                    families[k].samples[i].value,
                    number::u64_value(words[k + 3])->0 * statistic_unit(k).0,
                    statistic_unit(k).1,
                )
            }
        }),
{
    lemma_device_rows(raw, excluded);
    let lines = text::lines(raw);
    let at = rows::positions(lines, is_device_line(excluded));
    let all = rows::rows(lines, disk_row_at(excluded))->Ok_0;
    let words = text::words(lines[at[i]]);
    assert forall|j: int| 0 <= j < all.len() implies (#[trigger] all[j]).fields.len()
        >= MIN_FIELDS by {
        assert(text::words(lines[at[j]]).len() >= 14);
    }
    families_leave_no_device_out(all);
    assert(field_shared(all, k) <==> k < disk_metrics(all).len());
    if field_shared(all, k) {
        assert forall|j: int| 0 <= j < at.len() implies text::words(
            #[trigger] lines[at[j]],
        ).len() >= k + 4 by {
            assert(k < all[j].fields.len());
        }
        every_device_has_its_statistics(all, k, i);
        assert(Some(all[i].fields[k]) == number::u64_value(words[k + 3])) by {
            assert(words.len() >= 14);
        }
    } else {
        let j = choose|j: int| 0 <= j < all.len() && k >= (#[trigger] all[j]).fields.len();
        assert(text::words(lines[at[j]]).len() < k + 4);
    }
}

/// `/proc/diskstats` fails where a line ends in front of the device's name, and
/// where that of a device that is not left out has fewer than eleven statistics
/// or one that is no number. Otherwise it does not.
pub proof fn good_device_lines_do_not_fail(raw: Seq<char>, excluded: spec_fn(Seq<char>) -> bool)
    ensures
        disk_outcome(raw, excluded) is Ok <==> forall|i: int|
            #![trigger text::lines(raw)[i]]
            0 <= i < text::lines(raw).len() ==> {
                let words = text::words(text::lines(raw)[i]);
                &&& words.len() != 2
                &&& is_device_line(excluded)(text::lines(raw)[i]) ==> words.len() >= 14 && forall|
                    j: int,
                |
                    3 <= j < words.len() ==> number::u64_value(#[trigger] words[j]) is Some
            },
{
    let lines = text::lines(raw);
    let row = disk_row_at(excluded);
    rows::the_first_fault_fails_the_file(lines, row);
    assert forall|i: int| #![trigger lines[i]] 0 <= i < lines.len() implies (row(
        i,
        lines[i],
    ) is Fail <==> !{
        let words = text::words(lines[i]);
        &&& words.len() != 2
        &&& is_device_line(excluded)(lines[i]) ==> words.len() >= 14 && forall|j: int|
            3 <= j < words.len() ==> number::u64_value(#[trigger] words[j]) is Some
    }) by {
        let words = text::words(lines[i]);
        if words.len() >= 3 {
            let fields = words.skip(3);
            number::lemma_u64_run_meaning(fields);
            let good = number::u64_run(fields);
            if good < fields.len() {
                assert(number::u64_value(words[good + 3]) is None);
            } else {
                assert forall|j: int| 3 <= j < words.len() implies number::u64_value(
                    #[trigger] words[j],
                ) is Some by {
                    assert(number::u64_value(fields[j - 3]) is Some);
                }
            }
        }
    }
}

/// The families come in a fixed order, which is that of the statistics.
pub proof fn disk_families_are_named(rows: Seq<DiskRowView>, k: int)
    requires
        0 <= k < disk_metrics(rows).len(),
    ensures
        disk_metrics(rows).len() <= 17,
        disk_metrics(rows)[k].name == seq![
            "node_disk_reads_completed_total"@,
            "node_disk_reads_merged_total"@,
            "node_disk_read_bytes_total"@,
            "node_disk_read_time_seconds_total"@,
            "node_disk_writes_completed_total"@,
            "node_disk_writes_merged_total"@,
            "node_disk_written_bytes_total"@,
            "node_disk_write_time_seconds_total"@,
            "node_disk_io_now"@,
            "node_disk_io_time_seconds_total"@,
            "node_disk_io_time_weighted_seconds_total"@,
            "node_disk_discards_completed_total"@,
            "node_disk_discards_merged_total"@,
            "node_disk_discarded_sectors_total"@,
            "node_disk_discard_time_seconds_total"@,
            "node_disk_flush_requests_total"@,
            "node_disk_flush_requests_time_seconds_total"@,
        ][k],
        disk_metrics(rows)[k].mtype == if k == 8 {
            MetricType::Gauge
        } else {
            MetricType::Counter
        },
{
}

/// A message about a line without a device or with a statistic that is no number
/// names the line, and the word that is none, both counted from one.
pub proof fn faults_name_their_line(
    excluded: spec_fn(Seq<char>) -> bool,
    i: int,
    line: Seq<char>,
    k: int,
)
    requires
        i >= 0,
    ensures
        text::words(line).len() == 2 ==> disk_row(excluded, i, line) is Fail && text::starts(
            disk_row(excluded, i, line)->Fail_0,
            "diskstats: line "@ + number::decimal((i + 1) as nat) + " "@,
        ),
        3 <= k < text::words(line).len() && !excluded(text::words(line)[2]) && number::u64_value(
            text::words(line)[k],
        ) is None && (forall|j: int|
            3 <= j < k ==> number::u64_value(#[trigger] text::words(line)[j]) is Some) ==> disk_row(
            excluded,
            i,
            line,
        ) is Fail && text::starts(
            disk_row(excluded, i, line)->Fail_0,
            "diskstats: line "@ + number::decimal((i + 1) as nat) + " field "@ + number::decimal(
                (k + 1) as nat,
            ) + " ("@,
        ),
{
    reveal_strlit(" ");
    reveal_strlit(" missing device name");
    let words = text::words(line);
    let head = "diskstats: line "@ + number::decimal((i + 1) as nat);
    text::lemma_starts(head + " "@, " missing device name"@.skip(1));
    assert(head + " missing device name"@ =~= head + " "@ + " missing device name"@.skip(1));
    if 3 <= k < words.len() && !excluded(words[2]) && number::u64_value(words[k]) is None && (
    forall|j: int| 3 <= j < k ==> number::u64_value(#[trigger] words[j]) is Some) {
        let fields = words.skip(3);
        assert forall|j: int| 0 <= j < k - 3 implies number::u64_value(
            #[trigger] fields[j],
        ) is Some by {
            assert(fields[j] == words[j + 3]);
        }
        assert(fields[k - 3] == words[k]);
        number::lemma_u64_run(fields, k - 3);
        let front = head + " field "@ + number::decimal((k + 1) as nat) + " ("@;
        let tail = text::debug_form(fields[k - 3]) + ")"@;
        text::lemma_starts(front, tail);
        assert(front + text::debug_form(fields[k - 3]) + ")"@ =~= front + tail);
    }
}

} // verus!
