//! `/proc/mounts` and `statvfs(2)`: per-mount filesystem capacity and inode
//! usage.
//!
//! - `node_filesystem_size_bytes`: `f_blocks * f_frsize`
//! - `node_filesystem_free_bytes`: `f_bfree * f_frsize`
//! - `node_filesystem_avail_bytes`: `f_bavail * f_frsize`
//! - `node_filesystem_files`: `f_files`
//! - `node_filesystem_files_free`: `f_ffree`
//! - `node_filesystem_readonly`: 1 if the mount carries the `ro` option, else 0
//! - `node_filesystem_device_error`: 1 if `statvfs` failed on this mount, else
//!   0; the other metrics are still emitted in that case (as zeros) so
//!   per-mount alerts don't go silent on the failed mount
//!
//! Every sample carries the `device`, `mountpoint` and `fstype` labels, the
//! first three columns of `/proc/mounts`, with the octal escapes of `fstab(5)`
//! undone in the first two.

use vstd::prelude::*;

use crate::config::Config;
use crate::error::Error;
use crate::metric;
use crate::metric::{Metric, MetricType, MetricView, Sample, SampleView, Scale, Value, ValueView};
use crate::number;
use crate::number::push_decimal;
use crate::order;
use crate::quantity;
use crate::rows;
use crate::rows::Row;
use crate::source;
use crate::source::{unreadable_error, FileRead, FileView};
use crate::text;
use crate::text::{chars_of, lines_of, same, same_str, split_at_char, string_of, words_of};

verus! {

// --------------------------------------------------------------------- mounts

/// One row of `/proc/mounts`.
#[derive(Debug, Clone, PartialEq, Eq)]
pub struct MountEntry {
    pub device: String,
    pub mountpoint: String,
    pub fstype: String,
    pub options: String,
}

/// What a [`MountEntry`] says.
#[verifier::ext_equal]
pub struct MountView {
    pub device: Seq<char>,
    pub mountpoint: Seq<char>,
    pub fstype: Seq<char>,
    pub options: Seq<char>,
}

impl View for MountEntry {
    type V = MountView;

    open spec fn view(&self) -> MountView {
        MountView {
            device: self.device@,
            mountpoint: self.mountpoint@,
            fstype: self.fstype@,
            options: self.options@,
        }
    }
}

/// Whether one of the options is `ro`.
pub open spec fn is_readonly(m: MountView) -> bool {
    text::split(m.options, ',').contains("ro"@)
}

impl MountEntry {
    /// Whether the filesystem is mounted read-only.
    pub fn readonly(&self) -> (r: bool)
        ensures
            r == is_readonly(self@),
    {
        let chars = chars_of(self.options.as_str());
        let options = split_at_char(chars.as_slice(), ',');
        let ghost all = text::split(self.options@, ',');
        let mut i: usize = 0;
        while i < options.len()
            invariant
                i <= options@.len(),
                all == text::split(self.options@, ','),
                text::views(options@) == all,
                forall|j: int| 0 <= j < i ==> all[j] != "ro"@,
            decreases options@.len() - i,
        {
            assert(all[i as int] == options@[i as int]@);
            if same(options[i], "ro") {
                return true;
            }
            i = i + 1;
        }
        false
    }
}

pub open spec fn is_octal(c: char) -> bool {
    '0' <= c <= '7'
}

/// Whether `s` starts with a backslash and three octal digits.
pub open spec fn starts_octal(s: Seq<char>) -> bool {
    s.len() > 3 && s[0] == '\\' && is_octal(s[1]) && is_octal(s[2]) && is_octal(s[3])
}

/// The character that a backslash and three octal digits stand for: the low
/// eight bits of the number that they spell.
pub open spec fn octal_char(a: char, b: char, c: char) -> char {
    ((64 * number::digit_value(a) + 8 * number::digit_value(b) + number::digit_value(c))
        % 256) as char
}

/// `s` with the octal escapes of `fstab(5)` undone.
pub open spec fn unescaped_octal(s: Seq<char>) -> Seq<char>
    decreases s.len(),
{
    if s.len() == 0 {
        seq![]
    } else if starts_octal(s) {
        seq![octal_char(s[1], s[2], s[3])] + unescaped_octal(s.skip(4))
    } else {
        seq![s[0]] + unescaped_octal(s.skip(1))
    }
}

fn octal(c: char) -> (r: bool)
    ensures
        r == is_octal(c),
{
    '0' <= c && c <= '7'
}

/// Undoes the octal escapes of `fstab(5)`: `\040 \011 \012 \134`.
pub fn unescape_octal(input: &[char]) -> (r: String)
    ensures
        r@ == unescaped_octal(input@),
{
    let mut out = String::new();
    let mut i: usize = 0;
    assert(input@.skip(0) =~= input@);
    assert(out@ + unescaped_octal(input@) =~= unescaped_octal(input@));
    while i < input.len()
        invariant
            i <= input@.len(),
            unescaped_octal(input@) == out@ + unescaped_octal(input@.skip(i as int)),
        decreases input@.len() - i,
    {
        let ghost rest = input@.skip(i as int);
        let ghost had = out@;
        if input[i] == '\\' && input.len() - i > 3 && octal(input[i + 1]) && octal(input[i + 2])
            && octal(input[i + 3]) {
            let value: u32 = 64 * (input[i + 1] as u32 - 48) + 8 * (input[i + 2] as u32 - 48) + (
            input[i + 3] as u32 - 48);
            out.push((value % 256) as u8 as char);
            proof {
                assert(rest[0] == '\\' && rest[1] == input@[i + 1] && rest[2] == input@[i + 2]
                    && rest[3] == input@[i + 3]);
                assert(rest.skip(4) =~= input@.skip(i + 4));
                let one = seq![octal_char(rest[1], rest[2], rest[3])];
                assert(had + (one + unescaped_octal(rest.skip(4))) =~= had + one
                    + unescaped_octal(rest.skip(4)));
                assert(out@ =~= had + one);
            }
            i = i + 4;
        } else {
            out.push(input[i]);
            proof {
                assert(rest[0] == input@[i as int]);
                if rest.len() > 3 {
                    assert(rest[1] == input@[i + 1] && rest[2] == input@[i + 2] && rest[3]
                        == input@[i + 3]);
                }
                assert(rest.skip(1) =~= input@.skip(i + 1));
                assert(had + (seq![rest[0]] + unescaped_octal(rest.skip(1))) =~= out@
                    + unescaped_octal(rest.skip(1)));
            }
            i = i + 1;
        }
    }
    assert(input@.skip(i as int) =~= seq![]);
    assert(out@ + seq![] =~= out@);
    out
}

/// What line `i` of `/proc/mounts` comes to: `device mountpoint fstype options
/// dump pass`.
pub open spec fn mount_row(i: int, line: Seq<char>) -> Row<MountView> {
    let words = text::words(line);
    let at_line = "filesystem: line "@ + number::decimal((i + 1) as nat);
    if line.len() == 0 {
        Row::Skip
    } else if words.len() == 0 {
        Row::Fail(at_line + " missing device"@)
    } else if words.len() == 1 {
        Row::Fail(at_line + " missing mountpoint"@)
    } else if words.len() == 2 {
        Row::Fail(at_line + " missing fstype"@)
    } else if words.len() == 3 {
        Row::Fail(at_line + " missing options"@)
    } else {
        Row::Keep(
            MountView {
                device: unescaped_octal(words[0]),
                mountpoint: unescaped_octal(words[1]),
                fstype: words[2],
                options: words[3],
            },
        )
    }
}

pub open spec fn mount_row_at() -> spec_fn(int, Seq<char>) -> Row<MountView> {
    |i: int, line: Seq<char>| mount_row(i, line)
}

/// What `/proc/mounts` comes to.
pub open spec fn mounts_of(raw: Seq<char>) -> Result<Seq<MountView>, Seq<char>> {
    rows::rows(text::lines(raw), mount_row_at())
}

fn missing(i: usize, what: &str) -> (r: Error)
    requires
        i < usize::MAX,
    ensures
        r@ == "filesystem: line "@ + number::decimal((i + 1) as nat) + what@,
{
    let mut m = "filesystem: line ".to_owned();
    push_decimal(&mut m, i as u64 + 1);
    m.push_str(what);
    Error::new(m)
}

fn parse_row(i: usize, line: &[char]) -> (r: Result<Option<MountEntry>, Error>)
    requires
        i < usize::MAX,
    ensures
        match r {
            Ok(None) => mount_row(i as int, line@) == Row::<MountView>::Skip,
            Ok(Some(m)) => mount_row(i as int, line@) == Row::Keep(m@),
            Err(e) => mount_row(i as int, line@) == Row::<MountView>::Fail(e@),
        },
{
    if line.len() == 0 {
        return Ok(None);
    }
    let words = words_of(line);
    assert(text::views(words@).len() == words@.len());
    if words.len() == 0 {
        return Err(missing(i, " missing device"));
    }
    if words.len() == 1 {
        return Err(missing(i, " missing mountpoint"));
    }
    if words.len() == 2 {
        return Err(missing(i, " missing fstype"));
    }
    if words.len() == 3 {
        return Err(missing(i, " missing options"));
    }
    proof {
        assert(text::views(words@)[0] == words@[0]@);
        assert(text::views(words@)[1] == words@[1]@);
        assert(text::views(words@)[2] == words@[2]@);
        assert(text::views(words@)[3] == words@[3]@);
    }
    Ok(
        Some(
            MountEntry {
                device: unescape_octal(words[0]),
                mountpoint: unescape_octal(words[1]),
                fstype: string_of(words[2]),
                options: string_of(words[3]),
            },
        ),
    )
}

/// Parses `/proc/mounts`.
pub fn parse_mounts(raw: &str) -> (r: Result<Vec<MountEntry>, Error>)
    ensures
        match r {
            Ok(mounts) => mounts_of(raw@) == Ok::<_, Seq<char>>(order::views(mounts@)),
            Err(e) => mounts_of(raw@) == Err::<Seq<MountView>, _>(e@),
        },
{
    let chars = chars_of(raw);
    let lines = lines_of(chars.as_slice());
    let ghost all = text::lines(raw@);
    let mut out: Vec<MountEntry> = Vec::new();
    let mut i: usize = 0;
    assert(order::views(out@) =~= seq![]);
    while i < lines.len()
        invariant
            all == text::lines(raw@),
            text::views(lines@) == all,
            i <= lines@.len(),
            rows::rows(all.take(i as int), mount_row_at()) == Ok::<_, Seq<char>>(
                order::views(out@),
            ),
        decreases lines@.len() - i,
    {
        proof {
            assert(all[i as int] == lines@[i as int]@);
            rows::lemma_next_row(all, mount_row_at(), i as int);
        }
        let ghost before = order::views(out@);
        match parse_row(i, lines[i]) {
            Ok(Some(m)) => {
                out.push(m);
                assert(order::views(out@) =~= before.push(m@));
            },
            Ok(None) => {},
            Err(e) => {
                proof {
                    rows::lemma_failed_row(all, mount_row_at(), i + 1);
                }
                return Err(e);
            },
        }
        i = i + 1;
    }
    assert(all.take(all.len() as int) =~= all);
    Ok(out)
}

// ------------------------------------------------------------- distinct mounts

/// Whether two rows are about the same mount, whatever its options.
pub open spec fn same_mount(a: MountView, b: MountView) -> bool {
    a.device == b.device && a.mountpoint == b.mountpoint && a.fstype == b.fstype
}

/// Whether `mounts` has a row about that mount.
pub open spec fn has_mount(mounts: Seq<MountView>, m: MountView) -> bool {
    exists|i: int| 0 <= i < mounts.len() && same_mount(#[trigger] mounts[i], m)
}

/// The first row about each mount.
pub open spec fn distinct(mounts: Seq<MountView>) -> Seq<MountView>
    decreases mounts.len(),
{
    if mounts.len() == 0 {
        seq![]
    } else {
        let before = distinct(mounts.drop_last());
        if has_mount(before, mounts.last()) {
            before
        } else {
            before.push(mounts.last())
        }
    }
}

fn listed(mounts: &Vec<MountEntry>, m: &MountEntry) -> (r: bool)
    ensures
        r == has_mount(order::views(mounts@), m@),
{
    let ghost all = order::views(mounts@);
    let mut i: usize = 0;
    while i < mounts.len()
        invariant
            i <= mounts@.len(),
            all == order::views(mounts@),
            forall|j: int| 0 <= j < i ==> !same_mount(#[trigger] all[j], m@),
        decreases mounts@.len() - i,
    {
        assert(all[i as int] == mounts@[i as int]@);
        if same_str(mounts[i].device.as_str(), m.device.as_str()) && same_str(
            mounts[i].mountpoint.as_str(),
            m.mountpoint.as_str(),
        ) && same_str(mounts[i].fstype.as_str(), m.fstype.as_str()) {
            return true;
        }
        i = i + 1;
    }
    false
}

/// Picks the first row about each mount.
pub fn distinct_mounts(mounts: &[MountEntry]) -> (r: Vec<MountEntry>)
    ensures
        order::views(r@) == distinct(order::views(mounts@)),
{
    let ghost all = order::views(mounts@);
    let mut out: Vec<MountEntry> = Vec::new();
    let mut i: usize = 0;
    assert(order::views(out@) =~= seq![]);
    while i < mounts.len()
        invariant
            i <= mounts@.len(),
            all == order::views(mounts@),
            order::views(out@) == distinct(all.take(i as int)),
        decreases mounts@.len() - i,
    {
        proof {
            assert(all.take(i + 1).drop_last() =~= all.take(i as int));
            assert(all[i as int] == mounts@[i as int]@);
        }
        let m = &mounts[i];
        if !listed(&out, m) {
            let ghost before = order::views(out@);
            let copy = MountEntry {
                device: m.device.as_str().to_owned(),
                mountpoint: m.mountpoint.as_str().to_owned(),
                fstype: m.fstype.as_str().to_owned(),
                options: m.options.as_str().to_owned(),
            };
            out.push(copy);
            assert(order::views(out@) =~= before.push(m@));
        }
        i = i + 1;
    }
    assert(all.take(all.len() as int) =~= all);
    out
}

/// No mount comes twice among the rows picked.
pub proof fn distinct_mounts_differ(mounts: Seq<MountView>, i: int, j: int)
    requires
        0 <= i < j < distinct(mounts).len(),
    ensures
        !same_mount(distinct(mounts)[i], distinct(mounts)[j]),
    decreases mounts.len(),
{
    let before = distinct(mounts.drop_last());
    if j < before.len() {
        distinct_mounts_differ(mounts.drop_last(), i, j);
    } else {
        assert(before[i] == distinct(mounts)[i]);
        assert(!has_mount(before, mounts.last()));
    }
}

/// Every mount comes once among the rows picked.
pub proof fn distinct_mounts_cover(mounts: Seq<MountView>, i: int)
    requires
        0 <= i < mounts.len(),
    ensures
        has_mount(distinct(mounts), mounts[i]),
    decreases mounts.len(),
{
    let before = distinct(mounts.drop_last());
    let all = distinct(mounts);
    if i < mounts.len() - 1 {
        distinct_mounts_cover(mounts.drop_last(), i);
        assert(mounts.drop_last()[i] == mounts[i]);
        let k = choose|k: int| 0 <= k < before.len() && same_mount(#[trigger] before[k], mounts[i]);
        assert(all[k] == before[k]);
    } else if !has_mount(before, mounts.last()) {
        assert(all[before.len() as int] == mounts.last());
    }
}

// ------------------------------------------------------------------- families

/// What `statvfs(2)` tells of a filesystem.
#[derive(Debug, Clone, Copy)]
pub struct FsStats {
    /// The unit of the block counts, in bytes.
    pub frsize: u64,
    pub blocks: u64,
    pub bfree: u64,
    pub bavail: u64,
    pub files: u64,
    pub ffree: u64,
}

/// The families.
#[derive(Debug, Clone, Copy, PartialEq, Eq, Structural)]
pub enum FsField {
    Size,
    Free,
    Avail,
    Files,
    FilesFree,
    Readonly,
    DeviceError,
}

/// A number of blocks in bytes.
pub open spec fn block_bytes(blocks: u64, frsize: u64) -> ValueView {
    ValueView::unsigned(blocks).scaled(Scale::Times(frsize))
}

/// The value of a mount in a family. Where `statvfs` failed, the statistics
/// are zeros.
pub open spec fn fs_value(field: FsField, readonly: bool, stats: Option<FsStats>) -> ValueView {
    match field {
        FsField::Readonly => ValueView::flag(readonly),
        FsField::DeviceError => ValueView::flag(stats is None),
        _ => match stats {
            None => ValueView::unsigned(0),
            Some(s) => match field {
                FsField::Size => block_bytes(s.blocks, s.frsize),
                FsField::Free => block_bytes(s.bfree, s.frsize),
                FsField::Avail => block_bytes(s.bavail, s.frsize),
                FsField::Files => ValueView::unsigned(s.files),
                _ => ValueView::unsigned(s.ffree),
            },
        },
    }
}

/// The statistics of mount `i`. What is missing counts as failed.
pub open spec fn stats_of(stats: Seq<Option<FsStats>>, i: int) -> Option<FsStats> {
    if 0 <= i < stats.len() {
        stats[i]
    } else {
        None
    }
}

/// The sample of a mount.
pub open spec fn mount_sample(value: ValueView, m: MountView) -> SampleView<ValueView> {
    SampleView::new(value).with_label("device"@, m.device).with_label(
        "mountpoint"@,
        m.mountpoint,
    ).with_label("fstype"@, m.fstype)
}

/// A family: one sample for each mount.
pub open spec fn fs_family(
    name: Seq<char>,
    help: Seq<char>,
    field: FsField,
    mounts: Seq<MountView>,
    stats: Seq<Option<FsStats>>,
) -> MetricView<ValueView> {
    MetricView::new(name, help, MetricType::Gauge).with_samples(
        Seq::new(
            mounts.len(),
            |i: int|
                mount_sample(
                    fs_value(field, is_readonly(mounts[i]), stats_of(stats, i)),
                    mounts[i],
                ),
        ),
    )
}

/// The seven families of the mounts; `stats` tells of each of the distinct
/// ones in turn.
pub open spec fn fs_families(rows: Seq<MountView>, stats: Seq<Option<FsStats>>) -> Seq<
    MetricView<ValueView>,
> {
    let mounts = distinct(rows);
    seq![
        fs_family(
            "node_filesystem_size_bytes"@,
            "Filesystem size in bytes."@,
            FsField::Size,
            mounts,
            stats,
        ),
        fs_family(
            "node_filesystem_free_bytes"@,
            "Filesystem free space in bytes."@,
            FsField::Free,
            mounts,
            stats,
        ),
        fs_family(
            "node_filesystem_avail_bytes"@,
            "Filesystem space available to non-root users in bytes."@,
            FsField::Avail,
            mounts,
            stats,
        ),
        fs_family(
            "node_filesystem_files"@,
            "Filesystem total file nodes."@,
            FsField::Files,
            mounts,
            stats,
        ),
        fs_family(
            "node_filesystem_files_free"@,
            "Filesystem total free file nodes."@,
            FsField::FilesFree,
            mounts,
            stats,
        ),
        fs_family(
            "node_filesystem_readonly"@,
            "Filesystem read-only status."@,
            FsField::Readonly,
            mounts,
            stats,
        ),
        fs_family(
            "node_filesystem_device_error"@,
            "Whether an error occurred while getting statistics for the given device."@,
            FsField::DeviceError,
            mounts,
            stats,
        ),
    ]
}

fn mount_value(field: FsField, m: &MountEntry, stats: Option<FsStats>) -> (r: Value)
    ensures
        r@ == fs_value(field, is_readonly(m@), stats),
{
    if field == FsField::Readonly {
        return Value::flag(m.readonly());
    }
    if field == FsField::DeviceError {
        return Value::flag(stats.is_none());
    }
    match stats {
        None => Value::unsigned(0),
        Some(s) => match field {
            FsField::Size => Value::unsigned(s.blocks).scaled(Scale::Times(s.frsize)),
            FsField::Free => Value::unsigned(s.bfree).scaled(Scale::Times(s.frsize)),
            FsField::Avail => Value::unsigned(s.bavail).scaled(Scale::Times(s.frsize)),
            FsField::Files => Value::unsigned(s.files),
            _ => Value::unsigned(s.ffree),
        },
    }
}

fn labelled_sample(value: Value, m: &MountEntry) -> (r: Sample<Value>)
    ensures
        r@ == mount_sample(value@, m@),
{
    Sample::new(value).with_label("device", m.device.as_str()).with_label(
        "mountpoint",
        m.mountpoint.as_str(),
    ).with_label("fstype", m.fstype.as_str())
}

fn make_metric(
    name: &str,
    help: &str,
    field: FsField,
    mounts: &Vec<MountEntry>,
    stats: &[Option<FsStats>],
) -> (r: Metric<Value>)
    ensures
        r@ == fs_family(name@, help@, field, order::views(mounts@), stats@),
{
    let ghost all = order::views(mounts@);
    let ghost family = fs_family(name@, help@, field, all, stats@);
    let mut m = Metric::new(name, help, MetricType::Gauge);
    let mut i: usize = 0;
    assert(family.samples.take(0) =~= seq![]);
    while i < mounts.len()
        invariant
            i <= mounts@.len(),
            all == order::views(mounts@),
            family == fs_family(name@, help@, field, all, stats@),
            m@ == family.with_samples(family.samples.take(i as int)),
        decreases mounts@.len() - i,
    {
        assert(all[i as int] == mounts@[i as int]@);
        let known = if i < stats.len() {
            stats[i]
        } else {
            None
        };
        let s = labelled_sample(mount_value(field, &mounts[i], known), &mounts[i]);
        m.push(s);
        assert(family.samples.take(i + 1) =~= family.samples.take(i as int).push(s@));
        i = i + 1;
    }
    assert(family.samples.take(i as int) =~= family.samples);
    m
}

/// Builds the seven families. `stats` holds what `statvfs` told of each of the
/// [`distinct_mounts`], in their order.
pub fn collect_metrics(rows: &[MountEntry], stats: &[Option<FsStats>]) -> (r: Vec<Metric<Value>>)
    ensures
        metric::metric_views(r@) == fs_families(order::views(rows@), stats@),
{
    let mounts = distinct_mounts(rows);
    let out = vec![
        make_metric(
            "node_filesystem_size_bytes",
            "Filesystem size in bytes.",
            FsField::Size,
            &mounts,
            stats,
        ),
        make_metric(
            "node_filesystem_free_bytes",
            "Filesystem free space in bytes.",
            FsField::Free,
            &mounts,
            stats,
        ),
        make_metric(
            "node_filesystem_avail_bytes",
            "Filesystem space available to non-root users in bytes.",
            FsField::Avail,
            &mounts,
            stats,
        ),
        make_metric(
            "node_filesystem_files",
            "Filesystem total file nodes.",
            FsField::Files,
            &mounts,
            stats,
        ),
        make_metric(
            "node_filesystem_files_free",
            "Filesystem total free file nodes.",
            FsField::FilesFree,
            &mounts,
            stats,
        ),
        make_metric(
            "node_filesystem_readonly",
            "Filesystem read-only status.",
            FsField::Readonly,
            &mounts,
            stats,
        ),
        make_metric(
            "node_filesystem_device_error",
            "Whether an error occurred while getting statistics for the given device.",
            FsField::DeviceError,
            &mounts,
            stats,
        ),
    ];
    assert(metric::metric_views(out@) =~= fs_families(order::views(rows@), stats@));
    out
}

/// What `/proc/mounts` and the statistics come to.
pub open spec fn fs_outcome(raw: Seq<char>, stats: Seq<Option<FsStats>>) -> Result<
    Seq<MetricView<ValueView>>,
    Seq<char>,
> {
    match mounts_of(raw) {
        Ok(mounts) => Ok(fs_families(mounts, stats)),
        Err(m) => Err(m),
    }
}

pub struct FilesystemCollector;

impl FilesystemCollector {
    pub fn name(&self) -> (r: &'static str)
        ensures
            r@ == "filesystem"@,
    {
        "filesystem"
    }

    /// The file that lists the mounts.
    pub fn path(&self, cfg: &Config) -> (r: String)
        ensures
            r@ == cfg.proc_path_of("/proc/mounts"@),
    {
        cfg.proc_path("/proc/mounts")
    }

    /// Where to ask `statvfs` about a mount: at its mount point on the host,
    /// whose root the configuration gives.
    pub fn stat_path(&self, cfg: &Config, mount: &MountEntry) -> (r: String)
        ensures
            r@ == cfg.root_path_of(mount@.mountpoint),
    {
        cfg.root_path(mount.mountpoint.as_str())
    }

    /// The metrics, given what came of reading the file and what `statvfs`
    /// told of each of the [`distinct_mounts`].
    pub fn collect(&self, cfg: &Config, read: &FileRead, stats: &[Option<FsStats>]) -> (r: Result<
        Vec<Metric<Value>>,
        Error,
    >)
        ensures
            metric::outcome(r) == match read@ {
                FileView::Contents(raw) => fs_outcome(raw, stats@),
                _ => Err(source::unreadable(cfg.proc_path_of("/proc/mounts"@))),
            },
    {
        match read {
            FileRead::Contents(raw) => match parse_mounts(raw.as_str()) {
                Ok(mounts) => Ok(collect_metrics(mounts.as_slice(), stats)),
                Err(e) => Err(e),
            },
            _ => Err(unreadable_error(self.path(cfg).as_str())),
        }
    }
}

// ------------------------------------------------------------------------ laws

/// How a character of a path is written in `/proc/mounts`: a space, a tab, a
/// line feed and a backslash as octal escapes.
pub open spec fn mount_char(c: char) -> Seq<char> {
    if c == ' ' {
        seq!['\\', '0', '4', '0']
    } else if c == '\t' {
        seq!['\\', '0', '1', '1']
    } else if c == '\n' {
        seq!['\\', '0', '1', '2']
    } else if c == '\\' {
        seq!['\\', '1', '3', '4']
    } else {
        seq![c]
    }
}

/// How a path is written in `/proc/mounts`.
pub open spec fn mount_text(s: Seq<char>) -> Seq<char>
    decreases s.len(),
{
    if s.len() == 0 {
        seq![]
    } else {
        mount_char(s[0]) + mount_text(s.skip(1))
    }
}

/// Every path is read back from the form in which `/proc/mounts` has it.
pub proof fn mount_paths_read_back(s: Seq<char>)
    ensures
        unescaped_octal(mount_text(s)) == s,
    decreases s.len(),
{
    if s.len() > 0 {
        mount_paths_read_back(s.skip(1));
        let c = s[0];
        let rest = mount_text(s.skip(1));
        let whole = mount_char(c) + rest;
        if c == ' ' || c == '\t' || c == '\n' || c == '\\' {
            assert(whole[0] == mount_char(c)[0] && whole[1] == mount_char(c)[1] && whole[2]
                == mount_char(c)[2] && whole[3] == mount_char(c)[3]);
            assert(starts_octal(whole));
            assert(whole.skip(4) =~= rest);
            assert(octal_char('0', '4', '0') == ' ');
            assert(octal_char('0', '1', '1') == '\t');
            assert(octal_char('0', '1', '2') == '\n');
            assert(octal_char('1', '3', '4') == '\\');
            assert(octal_char(whole[1], whole[2], whole[3]) == c);
            assert(unescaped_octal(whole) == seq![c] + unescaped_octal(rest));
        } else {
            assert(whole[0] == c);
            assert(whole.skip(1) =~= rest);
        }
        assert(seq![c] + s.skip(1) =~= s);
    }
}

/// Every family has one sample for each distinct mount, also where `statvfs`
/// failed; the failure is told by the last family, and the statistics are
/// zeros.
pub proof fn failed_mounts_are_still_reported(
    rows: Seq<MountView>,
    stats: Seq<Option<FsStats>>,
    k: int,
    i: int,
)
    requires
        0 <= k < 7,
        0 <= i < distinct(rows).len(),
    ensures
        fs_families(rows, stats).len() == 7,
        fs_families(rows, stats)[k].samples.len() == distinct(rows).len(),
        fs_families(rows, stats)[6].samples[i].value == ValueView::flag(
            stats_of(stats, i) is None,
        ),
        k < 5 && stats_of(stats, i) is None ==> fs_families(rows, stats)[k].samples[i].value
            == ValueView::unsigned(0),
{
}

/// Where `statvfs` answered, the sizes of a mount are its own block counts times
/// its own block size, and the counts of file nodes are its own; where it did not,
/// all of them are zero. Whether it is mounted read-only is told either way. Each
/// sample carries the labels of its own mount.
pub proof fn every_mount_has_its_statistics(
    rows: Seq<MountView>,
    stats: Seq<Option<FsStats>>,
    i: int,
)
    requires
        0 <= i < distinct(rows).len(),
    ensures
        ({
            let families = fs_families(rows, stats);
            let m = distinct(rows)[i];
            let told = if i < stats.len() {
                stats[i]
            } else {
                None
            };
            let value = |k: int| families[k].samples[i].value;
            &&& families.len() == 7
            &&& forall|k: int|
                0 <= k < 7 ==> (#[trigger] families[k]).samples.len() == distinct(rows).len()
                    && families[k].samples[i].labels == seq![
                    ("device"@, m.device),
                    ("mountpoint"@, m.mountpoint),
                    ("fstype"@, m.fstype),
                ]
            &&& quantity::stands_for(
                value(5),
                if is_readonly(m) {
                    1
                } else {
                    0
                },
                1,
            )
            &&& match told {
                Some(s) => {
                    &&& quantity::stands_for(value(0), s.blocks * s.frsize, 1)
                    &&& quantity::stands_for(value(1), s.bfree * s.frsize, 1)
                    &&& quantity::stands_for(value(2), s.bavail * s.frsize, 1)
                    &&& quantity::stands_for(value(3), s.files as int, 1)
                    &&& quantity::stands_for(value(4), s.ffree as int, 1)
                    &&& quantity::stands_for(value(6), 0, 1)
                },
                None => {
                    &&& forall|k: int|
                        0 <= k < 5 ==> quantity::stands_for(
                            (#[trigger] families[k]).samples[i].value,
                            0,
                            1,
                        )
                    &&& quantity::stands_for(value(6), 1, 1)
                },
            }
        }),
{
    let families = fs_families(rows, stats);
    let m = distinct(rows)[i];
    assert forall|k: int| 0 <= k < 7 implies (#[trigger] families[k]).samples.len() == distinct(rows).len()
        && families[k].samples[i].labels == seq![
        ("device"@, m.device),
        ("mountpoint"@, m.mountpoint),
        ("fstype"@, m.fstype),
    ] by {
        assert(families[k].samples[i].labels =~= seq![
            ("device"@, m.device),
            ("mountpoint"@, m.mountpoint),
            ("fstype"@, m.fstype),
        ]);
    }
    let told = if i < stats.len() {
        stats[i]
    } else {
        None
    };
    if let Some(s) = told {
        let a = s.blocks * s.frsize;
        let b = s.bfree * s.frsize;
        let c = s.bavail * s.frsize;
        assert(a * 1 == a && b * 1 == b && c * 1 == c);
    }
}

/// The families come in a fixed order and are gauges.
pub proof fn filesystem_families_are_named(
    rows: Seq<MountView>,
    stats: Seq<Option<FsStats>>,
    k: int,
)
    requires
        0 <= k < 7,
    ensures
        fs_families(rows, stats)[k].name == seq![
            "node_filesystem_size_bytes"@,
            "node_filesystem_free_bytes"@,
            "node_filesystem_avail_bytes"@,
            "node_filesystem_files"@,
            "node_filesystem_files_free"@,
            "node_filesystem_readonly"@,
            "node_filesystem_device_error"@,
        ][k],
        fs_families(rows, stats)[k].mtype == MetricType::Gauge,
{
}

/// A mount is told to be read-only where `ro` is one of its options, wherever it
/// stands among them, and an option that merely holds it does not count.
pub proof fn readonly_is_an_option_of_its_own(m: MountView)
    ensures
        is_readonly(m) <==> exists|a: Seq<char>, b: Seq<char>|
            #![trigger a + "ro"@ + b]
            m.options == a + "ro"@ + b && (a.len() == 0 || a.last() == ',') && (b.len() == 0
                || b[0] == ','),
{
    lemma_option(m.options);
}

proof fn lemma_option(s: Seq<char>)
    ensures
        text::split(s, ',').contains("ro"@) <==> exists|a: Seq<char>, b: Seq<char>|
            #![trigger a + "ro"@ + b]
            s == a + "ro"@ + b && (a.len() == 0 || a.last() == ',') && (b.len() == 0 || b[0]
                == ','),
    decreases s.len(),
{
    reveal_strlit("ro");
    let ro = "ro"@;
    let n = text::first_index(s, ',');
    text::lemma_run_meaning(s, text::other_than(','));
    let first = s.take(n);
    assert forall|j: int| 0 <= j < first.len() implies first[j] != ',' by {
        assert(text::other_than(',')(s[j]));
    }
    if n == s.len() {
        assert(first =~= s);
        text::text_is_cut_at_separators(s, ',', seq![]);
        if s == ro {
            assert(seq![s][0] == ro);
            assert(s =~= Seq::<char>::empty() + ro + Seq::<char>::empty());
        }
        assert forall|a: Seq<char>, b: Seq<char>|
            #![trigger a + ro + b]
            s == a + ro + b && (a.len() == 0 || a.last() == ',') && (b.len() == 0 || b[0]
                == ',') implies s == ro by {
            if a.len() > 0 {
                assert(s[a.len() - 1] == ',');
            }
            if b.len() > 0 {
                assert(s[a.len() as int + 2] == ',');
            }
            assert(s =~= ro);
        }
        if text::split(s, ',').contains(ro) {
            assert(seq![s][0] == ro);
        }
    } else {
        let rest = s.skip(n + 1);
        assert(s =~= first + seq![','] + rest);
        text::text_is_cut_at_separators(first, ',', rest);
        lemma_option(rest);
        let pieces = text::split(s, ',');
        let later = text::split(rest, ',');
        if pieces.contains(ro) {
            let i = choose|i: int| 0 <= i < pieces.len() && pieces[i] == ro;
            if i == 0 {
                let b = seq![','] + rest;
                assert(s =~= Seq::<char>::empty() + ro + b);
            } else {
                assert(later[i - 1] == ro);
                assert(later.contains(ro));
                let (a, b) = choose|a: Seq<char>, b: Seq<char>|
                    #![trigger a + ro + b]
                    rest == a + ro + b && (a.len() == 0 || a.last() == ',') && (b.len() == 0
                        || b[0] == ',');
                let before = first + seq![','] + a;
                assert(s =~= before + ro + b);
                assert(before.last() == ',');
            }
        }
        if exists|a: Seq<char>, b: Seq<char>|
            #![trigger a + ro + b]
            s == a + ro + b && (a.len() == 0 || a.last() == ',') && (b.len() == 0 || b[0]
                == ',') {
            let (a, b) = choose|a: Seq<char>, b: Seq<char>|
                #![trigger a + ro + b]
                s == a + ro + b && (a.len() == 0 || a.last() == ',') && (b.len() == 0 || b[0]
                    == ',');
            if a.len() == 0 {
                assert(s[0] == ro[0] && s[1] == ro[1]);
                if b.len() > 0 {
                    assert(s[2] == b[0]);
                }
                assert(s[n] == ',');
                assert(n == 2) by {
                    if n > 2 {
                        assert(text::other_than(',')(s[2]));
                    }
                }
                assert(first =~= ro);
                assert(pieces[0] == ro);
            } else {
                assert(s[a.len() - 1] == ',');
                assert(n <= a.len() - 1) by {
                    if n > a.len() - 1 {
                        assert(text::other_than(',')(s[a.len() - 1]));
                    }
                }
                let after = a.skip(n + 1);
                assert(rest =~= after + ro + b);
                if after.len() > 0 {
                    assert(after.last() == a.last());
                }
                assert(later.contains(ro));
                let i = choose|i: int| 0 <= i < later.len() && later[i] == ro;
                assert(pieces[i + 1] == ro);
            }
        }
    }
}

/// Whether no earlier row has the device, the mount point and the type of row `j`.
pub open spec fn comes_first(rows: Seq<MountView>, j: int) -> bool {
    forall|k: int|
        0 <= k < j ==> (#[trigger] rows[k]).device != rows[j].device || rows[k].mountpoint
            != rows[j].mountpoint || rows[k].fstype != rows[j].fstype
}

/// Of the rows about one mount the first is picked, and the rows picked keep
/// their order. The result is the positions of the rows picked.
pub proof fn the_first_row_of_each_mount_counts(rows: Seq<MountView>) -> (at: Seq<int>)
    ensures
        at.len() == distinct(rows).len(),
        forall|i: int|
            0 <= i < at.len() ==> 0 <= #[trigger] at[i] < rows.len() && distinct(rows)[i]
                == rows[at[i]],
        forall|i: int, j: int| 0 <= i < j < at.len() ==> #[trigger] at[i] < #[trigger] at[j],
        forall|j: int|
            0 <= j < rows.len() ==> (at.contains(j) <==> #[trigger] comes_first(rows, j)),
    decreases rows.len(),
{
    if rows.len() == 0 {
        Seq::<int>::empty()
    } else {
        let n = rows.len() - 1;
        let front = rows.drop_last();
        let last = rows.last();
        let before = the_first_row_of_each_mount_counts(front);
        let picked = distinct(front);
        assert(rows[n] == last);
        assert(forall|k: int| 0 <= k < n ==> front[k] == #[trigger] rows[k]);
        let at = if has_mount(picked, last) {
            before
        } else {
            before.push(n)
        };
        if has_mount(picked, last) {
            let i = choose|i: int| 0 <= i < picked.len() && same_mount(#[trigger] picked[i], last);
            assert(picked[i] == front[before[i]]);
            assert(same_mount(rows[before[i]], rows[n]));
        } else {
            assert forall|k: int| 0 <= k < n implies !same_mount(#[trigger] rows[k], rows[n]) by {
                distinct_mounts_cover(front, k);
                assert(front[k] == rows[k]);
                if same_mount(rows[k], last) {
                    let i = choose|i: int|
                        0 <= i < picked.len() && same_mount(#[trigger] picked[i], front[k]);
                    assert(same_mount(picked[i], last));
                }
            }
        }
        assert forall|i: int| 0 <= i < at.len() implies 0 <= #[trigger] at[i] < rows.len()
            && distinct(rows)[i] == rows[at[i]] by {
            if i < before.len() {
                assert(at[i] == before[i]);
                assert(front[before[i]] == rows[before[i]]);
            }
        }
        assert forall|i: int, j: int| 0 <= i < j < at.len() implies #[trigger] at[i]
            < #[trigger] at[j] by {
            assert(at[i] == before[i]);
            if j < before.len() {
                assert(at[j] == before[j]);
            }
        }
        assert forall|j: int| 0 <= j < rows.len() implies (at.contains(j)
            <==> #[trigger] comes_first(rows, j)) by {
            if j < n {
                assert(front[j] == rows[j]);
                assert(before.contains(j) <==> comes_first(front, j));
                if before.contains(j) {
                    let i = choose|i: int| 0 <= i < before.len() && before[i] == j;
                    assert(at[i] == j);
                    assert forall|k: int| 0 <= k < j implies !same_mount(
                        #[trigger] rows[k],
                        rows[j],
                    ) by {
                        assert(front[k] == rows[k]);
                    }
                } else {
                    let k = choose|k: int|
                        0 <= k < j && same_mount(#[trigger] front[k], front[j]);
                    assert(same_mount(rows[k], rows[j]));
                    if at.contains(j) {
                        let i = choose|i: int| 0 <= i < at.len() && at[i] == j;
                        assert(before[i] == j);
                    }
                }
            } else if has_mount(picked, last) {
                if at.contains(n) {
                    let i = choose|i: int| 0 <= i < at.len() && at[i] == n;
                    assert(before[i] < n);
                }
            } else {
                assert(at[before.len() as int] == n);
            }
        }
        at
    }
}

/// A row of `/proc/mounts` with four columns or more is kept, and its first four
/// columns are the mount, with the paths as they were before they were written.
pub proof fn every_mount_has_its_row(
    i: int,
    line: Seq<char>,
    device: Seq<char>,
    mountpoint: Seq<char>,
    fstype: Seq<char>,
    options: Seq<char>,
    more: Seq<Seq<char>>,
)
    requires
        text::words(line) == seq![mount_text(device), mount_text(mountpoint), fstype, options]
            + more,
    ensures
        mount_row(i, line) == Row::Keep(MountView { device, mountpoint, fstype, options }),
{
    let words = text::words(line);
    mount_paths_read_back(device);
    mount_paths_read_back(mountpoint);
    assert(words[0] == mount_text(device) && words[1] == mount_text(mountpoint) && words[2]
        == fstype && words[3] == options);
    if line.len() == 0 {
        text::words_are_cut_at_blanks(seq!['x'], ' ', line);
        assert(line =~= seq![]);
    }
}

/// `/proc/mounts` parses where each of its lines that is not empty has four
/// columns, and only there. The mounts are then those lines, in order.
pub proof fn every_line_is_a_mount(raw: Seq<char>)
    ensures
        ({
            let lines = text::lines(raw);
            let filled = |line: Seq<char>| line.len() > 0;
            let at = rows::positions(lines, filled);
            &&& mounts_of(raw) is Ok <==> forall|i: int|
                0 <= i < lines.len() && (#[trigger] lines[i]).len() > 0 ==> text::words(
                    lines[i],
                ).len() >= 4
            &&& mounts_of(raw) is Ok ==> mounts_of(raw)->Ok_0.len() == at.len() && forall|i: int|
                0 <= i < at.len() ==> mount_row(at[i], lines[#[trigger] at[i]]) == Row::Keep(
                    mounts_of(raw)->Ok_0[i],
                )
        }),
{
    let lines = text::lines(raw);
    let filled = |line: Seq<char>| line.len() > 0;
    let at = rows::positions(lines, filled);
    rows::the_first_fault_fails_the_file(lines, mount_row_at());
    assert forall|i: int| 0 <= i < lines.len() implies (mount_row_at()(
        i,
        #[trigger] lines[i],
    ) is Fail <==> lines[i].len() > 0 && text::words(lines[i]).len() < 4) by {}
    if mounts_of(raw) is Ok {
        rows::kept_lines_are_the_rows(lines, mount_row_at(), filled);
        assert forall|i: int| 0 <= i < at.len() implies mount_row(at[i], lines[#[trigger] at[i]])
            == Row::Keep(mounts_of(raw)->Ok_0[i]) by {
            assert(mount_row_at()(at[i], lines[at[i]]) == Row::Keep(mounts_of(raw)->Ok_0[i]));
        }
    }
}

/// A backslash and three octal digits stand for the byte that they spell; every
/// other character, a lone backslash among them, stands for itself.
pub proof fn every_octal_escape_is_undone(a: Seq<char>, x: int, y: int, z: int, b: Seq<char>)
    requires
        !a.contains('\\'),
        0 <= x < 8,
        0 <= y < 8,
        0 <= z < 8,
    ensures
        unescaped_octal(a) == a,
        unescaped_octal(
            a + seq![
                '\\',
                number::digit_char(x),
                number::digit_char(y),
                number::digit_char(z),
            ] + b,
        ) == a + seq![((64 * x + 8 * y + z) % 256) as char] + unescaped_octal(b),
        b.len() < 3 || !(is_octal(b[0]) && is_octal(b[1]) && is_octal(b[2])) ==> unescaped_octal(
            a + seq!['\\'] + b,
        ) == a + seq!['\\'] + unescaped_octal(b),
    decreases a.len(),
{
    let escape = seq![
        '\\',
        number::digit_char(x),
        number::digit_char(y),
        number::digit_char(z),
    ];
    let one = seq![((64 * x + 8 * y + z) % 256) as char];
    let slash = seq!['\\'];
    let lone = b.len() < 3 || !(is_octal(b[0]) && is_octal(b[1]) && is_octal(b[2]));
    if a.len() == 0 {
        let whole = a + escape + b;
        assert(whole[0] == escape[0] && whole[1] == escape[1] && whole[2] == escape[2] && whole[3]
            == escape[3]);
        assert(starts_octal(whole));
        assert(whole.skip(4) =~= b);
        assert(octal_char(whole[1], whole[2], whole[3]) == one[0]);
        assert(a + one + unescaped_octal(b) =~= one + unescaped_octal(b));
        let bare = a + slash + b;
        if lone {
            assert(bare[0] == '\\');
            if b.len() >= 3 {
                assert(bare[1] == b[0] && bare[2] == b[1] && bare[3] == b[2]);
            }
            assert(bare.skip(1) =~= b);
            assert(a + slash + unescaped_octal(b) =~= slash + unescaped_octal(b));
        }
        assert(unescaped_octal(a) =~= a);
    } else {
        let rest = a.skip(1);
        assert(a.contains(a[0]));
        assert forall|j: int| 0 <= j < rest.len() implies rest[j] != '\\' by {
            assert(a.contains(a[j + 1]));
        }
        every_octal_escape_is_undone(rest, x, y, z, b);
        let first = seq![a[0]];
        let whole = a + escape + b;
        assert(whole[0] == a[0]);
        assert(whole.skip(1) =~= rest + escape + b);
        assert(first + (rest + one + unescaped_octal(b)) =~= a + one + unescaped_octal(b));
        let bare = a + slash + b;
        assert(bare[0] == a[0]);
        assert(bare.skip(1) =~= rest + slash + b);
        assert(first + (rest + slash + unescaped_octal(b)) =~= a + slash + unescaped_octal(b));
        assert(first + rest =~= a);
    }
}

/// A message about a line names the line, counted from one.
pub proof fn faults_name_their_line(i: int, line: Seq<char>)
    requires
        i >= 0,
        mount_row(i, line) is Fail,
    ensures
        text::starts(
            mount_row(i, line)->Fail_0,
            "filesystem: line "@ + number::decimal((i + 1) as nat) + " missing "@,
        ),
{
    reveal_strlit(" missing ");
    reveal_strlit(" missing device");
    reveal_strlit(" missing mountpoint");
    reveal_strlit(" missing fstype");
    reveal_strlit(" missing options");
    let head = "filesystem: line "@ + number::decimal((i + 1) as nat);
    let n = text::words(line).len();
    let what = if n == 0 {
        " missing device"@
    } else if n == 1 {
        " missing mountpoint"@
    } else if n == 2 {
        " missing fstype"@
    } else {
        " missing options"@
    };
    assert(what =~= " missing "@ + what.skip(9));
    text::lemma_starts(head + " missing "@, what.skip(9));
    assert(head + what =~= head + " missing "@ + what.skip(9));
}

} // verus!
