//! Minimal metric model.
//!
//! A flat `(name, labels, value)` model maps cleanly to the text that the
//! kernel exposes. A collector does no floating-point arithmetic: it states
//! which number a sample stands for as a [`Value`], and the number is worked
//! out where the samples are written out, as a [`Double`].

use vstd::prelude::*;

use crate::text::same_str;

verus! {

/// Prometheus metric type.
#[derive(Debug, Clone, Copy, PartialEq, Eq, Structural)]
pub enum MetricType {
    Counter,
    Gauge,
    Untyped,
}

impl MetricType {
    /// The word that stands for the type in the exposition format.
    pub open spec fn word(self) -> Seq<char> {
        match self {
            MetricType::Counter => "counter"@,
            MetricType::Gauge => "gauge"@,
            MetricType::Untyped => "untyped"@,
        }
    }

    /// The word that stands for the type in the exposition format.
    pub fn as_str(&self) -> (r: &'static str)
        ensures
            r@ == self.word(),
    {
        match self {
            MetricType::Counter => "counter",
            MetricType::Gauge => "gauge",
            MetricType::Untyped => "untyped",
        }
    }
}

/// A number as it was read.
#[derive(Debug, Clone)]
pub enum Reading {
    Unsigned(u64),
    Signed(i64),
    /// A point in time: `secs + nanos / 1e9` seconds after the epoch.
    Clock { secs: i64, nanos: i64 },
    /// A length of time: `seconds + nanoseconds / 1e9`.
    Span { seconds: u64, nanoseconds: u32 },
    /// The floating-point literal that the source spelled.
    Decimal(String),
    NotANumber,
    Infinity,
    NegativeInfinity,
}

/// What a [`Reading`] says.
#[verifier::ext_equal]
pub enum ReadingView {
    Unsigned(u64),
    Signed(i64),
    Clock { secs: i64, nanos: i64 },
    Span { seconds: u64, nanoseconds: u32 },
    Decimal(Seq<char>),
    NotANumber,
    Infinity,
    NegativeInfinity,
}

impl View for Reading {
    type V = ReadingView;

    open spec fn view(&self) -> ReadingView {
        match self {
            Reading::Unsigned(n) => ReadingView::Unsigned(*n),
            Reading::Signed(n) => ReadingView::Signed(*n),
            Reading::Clock { secs, nanos } => ReadingView::Clock { secs: *secs, nanos: *nanos },
            Reading::Span { seconds, nanoseconds } => ReadingView::Span {
                seconds: *seconds,
                nanoseconds: *nanoseconds,
            },
            Reading::Decimal(text) => ReadingView::Decimal(text@),
            Reading::NotANumber => ReadingView::NotANumber,
            Reading::Infinity => ReadingView::Infinity,
            Reading::NegativeInfinity => ReadingView::NegativeInfinity,
        }
    }
}

/// The one floating-point operation that turns a reading into a sample's unit.
/// Every operand is converted to a double first.
#[derive(Debug, Clone, Copy, PartialEq, Eq, Structural)]
pub enum Scale {
    /// The reading itself.
    Unit,
    /// The reading times a whole number.
    Times(u64),
    /// The reading times the double nearest to 0.001.
    TimesThousandth,
    /// The reading divided by a whole number.
    Over(u64),
    /// One plus the reading divided by a whole number.
    OnePlusOver(u64),
}

/// The number that a sample stands for: a reading and its conversion.
#[derive(Debug, Clone)]
pub struct Value {
    pub reading: Reading,
    pub scale: Scale,
}

/// What a [`Value`] says.
#[verifier::ext_equal]
pub struct ValueView {
    pub reading: ReadingView,
    pub scale: Scale,
}

impl View for Value {
    type V = ValueView;

    open spec fn view(&self) -> ValueView {
        ValueView { reading: self.reading@, scale: self.scale }
    }
}

impl ValueView {
    pub open spec fn unsigned(n: u64) -> ValueView {
        ValueView { reading: ReadingView::Unsigned(n), scale: Scale::Unit }
    }

    pub open spec fn signed(n: i64) -> ValueView {
        ValueView { reading: ReadingView::Signed(n), scale: Scale::Unit }
    }

    pub open spec fn decimal(text: Seq<char>) -> ValueView {
        ValueView { reading: ReadingView::Decimal(text), scale: Scale::Unit }
    }

    pub open spec fn clock(secs: i64, nanos: i64) -> ValueView {
        ValueView { reading: ReadingView::Clock { secs, nanos }, scale: Scale::Unit }
    }

    pub open spec fn span(seconds: u64, nanoseconds: u32) -> ValueView {
        ValueView { reading: ReadingView::Span { seconds, nanoseconds }, scale: Scale::Unit }
    }

    /// 1 for yes and 0 for no.
    pub open spec fn flag(yes: bool) -> ValueView {
        ValueView::unsigned(if yes { 1 } else { 0 })
    }

    pub open spec fn scaled(self, scale: Scale) -> ValueView {
        ValueView { reading: self.reading, scale }
    }
}

impl Value {
    pub fn unsigned(n: u64) -> (r: Self)
        ensures
            r@ == ValueView::unsigned(n),
    {
        Value { reading: Reading::Unsigned(n), scale: Scale::Unit }
    }

    pub fn signed(n: i64) -> (r: Self)
        ensures
            r@ == ValueView::signed(n),
    {
        Value { reading: Reading::Signed(n), scale: Scale::Unit }
    }

    pub fn decimal(text: String) -> (r: Self)
        ensures
            r@ == ValueView::decimal(text@),
    {
        Value { reading: Reading::Decimal(text), scale: Scale::Unit }
    }

    pub fn clock(secs: i64, nanos: i64) -> (r: Self)
        ensures
            r@ == ValueView::clock(secs, nanos),
    {
        Value { reading: Reading::Clock { secs, nanos }, scale: Scale::Unit }
    }

    pub fn span(seconds: u64, nanoseconds: u32) -> (r: Self)
        ensures
            r@ == ValueView::span(seconds, nanoseconds),
    {
        Value { reading: Reading::Span { seconds, nanoseconds }, scale: Scale::Unit }
    }

    /// 1 for yes and 0 for no.
    pub fn flag(yes: bool) -> (r: Self)
        ensures
            r@ == ValueView::flag(yes),
    {
        if yes {
            Value::unsigned(1)
        } else {
            Value::unsigned(0)
        }
    }

    /// The same reading under another conversion.
    pub fn scaled(self, scale: Scale) -> (r: Self)
        ensures
            r@ == self@.scaled(scale),
    {
        Value { reading: self.reading, scale }
    }
}

/// A double-precision number: the bits of its IEEE 754 representation, and
/// the shortest decimal text that reads back as it. What ties the two together
/// is `double::is_faithful`.
#[derive(Debug, Clone)]
pub struct Double {
    pub bits: u64,
    pub shortest: String,
}

/// What a [`Double`] holds.
#[verifier::ext_equal]
pub struct DoubleView {
    pub bits: u64,
    pub shortest: Seq<char>,
}

impl View for Double {
    type V = DoubleView;

    open spec fn view(&self) -> DoubleView {
        DoubleView { bits: self.bits, shortest: self.shortest@ }
    }
}

/// A label: its name and its value.
pub type LabelView = (Seq<char>, Seq<char>);

/// What each label of `v` says.
pub open spec fn label_views(v: Seq<(String, String)>) -> Seq<LabelView> {
    Seq::new(v.len(), |i: int| (v[i].0@, v[i].1@))
}

/// One time-series sample within a metric family.
#[derive(Debug, Clone)]
pub struct Sample<V> {
    /// Label name/value pairs. Order is preserved as supplied by the collector.
    pub labels: Vec<(String, String)>,
    pub value: V,
}

/// What a [`Sample`] says.
#[verifier::ext_equal]
pub struct SampleView<V> {
    pub labels: Seq<LabelView>,
    pub value: V,
}

impl<V: View> View for Sample<V> {
    type V = SampleView<V::V>;

    open spec fn view(&self) -> SampleView<V::V> {
        SampleView { labels: label_views(self.labels@), value: self.value@ }
    }
}

impl<V> SampleView<V> {
    pub open spec fn new(value: V) -> Self {
        SampleView { labels: seq![], value }
    }

    pub open spec fn with_label(self, key: Seq<char>, val: Seq<char>) -> Self {
        SampleView { labels: self.labels.push((key, val)), value: self.value }
    }
}

impl<V: View> Sample<V> {
    pub fn new(value: V) -> (r: Self)
        ensures
            r@ == SampleView::new(value@),
    {
        let r = Sample { labels: Vec::new(), value };
        assert(r@.labels =~= seq![]);
        r
    }

    /// The sample with one more label after the others.
    #[must_use]
    pub fn with_label(self, key: &str, val: &str) -> (r: Self)
        ensures
            r@ == self@.with_label(key@, val@),
    {
        let mut s = self;
        s.labels.push((key.to_owned(), val.to_owned()));
        assert(s@.labels =~= self@.labels.push((key@, val@)));
        s
    }
}

/// What each sample of `v` says.
pub open spec fn sample_views<V: View>(v: Seq<Sample<V>>) -> Seq<SampleView<V::V>> {
    Seq::new(v.len(), |i: int| v[i]@)
}

/// A metric family: name + HELP/TYPE metadata + one or more samples.
#[derive(Debug, Clone)]
pub struct Metric<V> {
    pub name: String,
    pub help: String,
    pub mtype: MetricType,
    pub samples: Vec<Sample<V>>,
}

/// What a [`Metric`] says.
#[verifier::ext_equal]
pub struct MetricView<V> {
    pub name: Seq<char>,
    pub help: Seq<char>,
    pub mtype: MetricType,
    pub samples: Seq<SampleView<V>>,
}

impl<V: View> View for Metric<V> {
    type V = MetricView<V::V>;

    open spec fn view(&self) -> MetricView<V::V> {
        MetricView {
            name: self.name@,
            help: self.help@,
            mtype: self.mtype,
            samples: sample_views(self.samples@),
        }
    }
}

impl<V> MetricView<V> {
    pub open spec fn new(name: Seq<char>, help: Seq<char>, mtype: MetricType) -> Self {
        MetricView { name, help, mtype, samples: seq![] }
    }

    pub open spec fn with_sample(self, sample: SampleView<V>) -> Self {
        MetricView { samples: self.samples.push(sample), ..self }
    }

    /// A family of one sample without labels.
    pub open spec fn single(
        name: Seq<char>,
        help: Seq<char>,
        mtype: MetricType,
        value: V,
    ) -> Self {
        MetricView::new(name, help, mtype).with_sample(SampleView::new(value))
    }

    pub open spec fn with_samples(self, samples: Seq<SampleView<V>>) -> Self {
        MetricView { samples, ..self }
    }
}

impl<V: View> Metric<V> {
    pub fn new(name: &str, help: &str, mtype: MetricType) -> (r: Self)
        ensures
            r@ == MetricView::<V::V>::new(name@, help@, mtype),
    {
        let r = Metric { name: name.to_owned(), help: help.to_owned(), mtype, samples: Vec::new() };
        assert(r@.samples =~= seq![]);
        r
    }

    /// A family of one sample without labels.
    pub fn single(name: &str, help: &str, mtype: MetricType, value: V) -> (r: Self)
        ensures
            r@ == MetricView::single(name@, help@, mtype, value@),
    {
        Metric::new(name, help, mtype).with_sample(Sample::new(value))
    }

    /// The family with one more sample after the others.
    #[must_use]
    pub fn with_sample(self, sample: Sample<V>) -> (r: Self)
        ensures
            r@ == self@.with_sample(sample@),
    {
        let mut m = self;
        m.push(sample);
        m
    }

    /// Adds a sample after the others.
    pub fn push(&mut self, sample: Sample<V>)
        ensures
            final(self)@ == old(self)@.with_sample(sample@),
    {
        self.samples.push(sample);
        assert(self@.samples =~= old(self)@.samples.push(sample@));
    }
}

/// What each family of `v` says.
pub open spec fn metric_views<V: View>(v: Seq<Metric<V>>) -> Seq<MetricView<V::V>> {
    Seq::new(v.len(), |i: int| v[i]@)
}

/// The position of the first family of that name, or the number of families.
pub open spec fn family_index<V>(families: Seq<MetricView<V>>, name: Seq<char>) -> int
    decreases families.len(),
{
    if families.len() == 0 || families[0].name == name {
        0
    } else {
        1 + family_index(families.drop_first(), name)
    }
}

/// What `family_index` is, told by position.
pub proof fn lemma_family_index<V>(families: Seq<MetricView<V>>, name: Seq<char>, n: int)
    requires
        0 <= n <= families.len(),
        forall|j: int| 0 <= j < n ==> (#[trigger] families[j]).name != name,
        n == families.len() || families[n].name == name,
    ensures
        family_index(families, name) == n,
    decreases n,
{
    if n > 0 {
        assert(families[0].name != name);
        let rest = families.drop_first();
        assert forall|j: int| 0 <= j < n - 1 implies (#[trigger] rest[j]).name != name by {
            assert(rest[j] == families[j + 1]);
        }
        lemma_family_index(rest, name, n - 1);
    }
}

/// Where `family_index` points.
pub proof fn lemma_family_index_meaning<V>(families: Seq<MetricView<V>>, name: Seq<char>)
    ensures
        0 <= family_index(families, name) <= families.len(),
        family_index(families, name) < families.len() ==> families[family_index(
            families,
            name,
        )].name == name,
        forall|j: int|
            0 <= j < family_index(families, name) ==> (#[trigger] families[j]).name != name,
    decreases families.len(),
{
    if families.len() > 0 && families[0].name != name {
        let rest = families.drop_first();
        lemma_family_index_meaning(rest, name);
        let n = family_index(rest, name);
        assert forall|j: int| 0 <= j < n + 1 implies (#[trigger] families[j]).name != name by {
            if j > 0 {
                assert(families[j] == rest[j - 1]);
            }
        }
        if n + 1 < families.len() {
            assert(families[n + 1] == rest[n]);
        }
    }
}

/// Finds the first family of that name.
pub fn find_family<V: View>(families: &Vec<Metric<V>>, name: &str) -> (r: usize)
    ensures
        r == family_index(metric_views(families@), name@),
        r <= families@.len(),
{
    let ghost all = metric_views(families@);
    let mut i: usize = 0;
    while i < families.len() && !same_str(families[i].name.as_str(), name)
        invariant
            i <= families@.len(),
            all == metric_views(families@),
            forall|j: int| 0 <= j < i ==> (#[trigger] all[j]).name != name@,
        decreases families@.len() - i,
    {
        assert(all[i as int] == families@[i as int]@);
        i = i + 1;
    }
    proof {
        if i < all.len() {
            assert(all[i as int] == families@[i as int]@);
        }
        lemma_family_index(all, name@, i as int);
    }
    i
}

/// Whether no two families have the same name.
pub open spec fn distinct_names<V>(families: Seq<MetricView<V>>) -> bool {
    forall|i: int, j: int|
        0 <= i < j < families.len() ==> (#[trigger] families[i]).name != (
        #[trigger] families[j]).name
}

/// What `result` says: the families, or the message.
pub open spec fn outcome<E: View>(result: Result<Vec<Metric<Value>>, E>) -> Result<
    Seq<MetricView<ValueView>>,
    E::V,
> {
    match result {
        Ok(metrics) => Ok(metric_views(metrics@)),
        Err(e) => Err(e@),
    }
}

} // verus!
