//! One column of a table: its classification and its memoized statistics.

use crate::number::Number;
use crate::stats::{
    lemma_present_push, min_max, min_max_of, present, present_count, present_values, quantiles,
    quantiles_of, Value,
};
use crate::text::{blank, count_distinct, distinct_nonempty, is_blank, texts_of};
use vstd::prelude::*;

verus! {

/// One raw cell: its text, and the number that the text was read as, if it
/// was read as one.
pub struct Entry {
    pub text: String,
    pub reading: Option<Number>,
}

/// What a cell counts as in a numeric column; `None` where it is neither a
/// number nor blank.
pub open spec fn entry_value(e: Entry) -> Option<Value> {
    match e.reading {
        Some(n) => Some(Value::Exist(n)),
        None => if blank(e.text@) {
            Some(Value::Empty)
        } else {
            None
        },
    }
}

/// Every cell is a number or blank.
pub open spec fn numeric_shaped(entries: Seq<Entry>) -> bool {
    forall|i: int| 0 <= i < entries.len() ==> (#[trigger] entry_value(entries[i])).is_some()
}

/// The cells of a numeric column.
pub open spec fn values_of(entries: Seq<Entry>) -> Seq<Value> {
    Seq::new(entries.len(), |i: int| entry_value(entries[i]).unwrap())
}

/// The texts of the cells.
pub open spec fn entry_texts(entries: Seq<Entry>) -> Seq<Seq<char>> {
    Seq::new(entries.len(), |i: int| entries[i].text@)
}

/// The content of a column, as mathematics sees it.
pub enum Content {
    /// Free text: too many different texts to be categories.
    String(Seq<Seq<char>>),
    /// Numbers and blanks, at least one number.
    Continuous(Seq<Value>),
    /// Text with few different values.
    Discreat(Seq<Seq<char>>),
    /// Blanks only.
    Empty(Seq<Value>),
}

/// The content that a column of cells is classified as.
pub open spec fn classify(entries: Seq<Entry>) -> Content {
    if numeric_shaped(entries) {
        if present(values_of(entries)).len() > 0 {
            Content::Continuous(values_of(entries))
        } else {
            Content::Empty(values_of(entries))
        }
    } else if distinct_nonempty(entry_texts(entries)) < entries.len() / 10 {
        Content::Discreat(entry_texts(entries))
    } else {
        Content::String(entry_texts(entries))
    }
}

/// The content of a column.
#[derive(Debug)]
pub enum FeatureContainer {
    String(Vec<String>),
    Continuous(Vec<Value>),
    Discreat(Vec<String>),
    Empty(Vec<Value>),
}

impl View for FeatureContainer {
    type V = Content;

    open spec fn view(&self) -> Content {
        match self {
            FeatureContainer::String(raw) => Content::String(texts_of(raw@)),
            FeatureContainer::Continuous(values) => Content::Continuous(values@),
            FeatureContainer::Discreat(raw) => Content::Discreat(texts_of(raw@)),
            FeatureContainer::Empty(values) => Content::Empty(values@),
        }
    }
}

/// A column as mathematics sees it: content, count, and what is memoized.
pub struct FeatureView {
    pub name: Seq<char>,
    pub content: Content,
    pub count: nat,
    pub mean: Option<Number>,
    pub std: Option<Number>,
    pub min: Option<Number>,
    pub max: Option<Number>,
    pub quart: Option<Number>,
    pub median: Option<Number>,
    pub last_quart: Option<Number>,
    pub discreat_number: Option<nat>,
}

impl FeatureView {
    pub open spec fn is_continuous(self) -> bool {
        self.content is Continuous
    }

    /// The least and the greatest reading; neither unless the column is
    /// continuous.
    pub open spec fn min_max(self) -> (Option<Number>, Option<Number>) {
        match self.content {
            Content::Continuous(values) => min_max_of(values),
            _ => (None, None),
        }
    }

    /// The three quartiles; none unless the column is continuous.
    pub open spec fn quantiles(self) -> Option<(Number, Number, Number)> {
        match self.content {
            Content::Continuous(values) => Some(quantiles_of(values)),
            _ => None,
        }
    }

    /// The readings that the mean and the deviation are taken over.
    pub open spec fn terms(self) -> Seq<Number> {
        match self.content {
            Content::Continuous(values) => present(values),
            _ => Seq::empty(),
        }
    }

    /// The count and the number of different values fit the content.
    pub open spec fn classified(self) -> bool {
        match self.content {
            Content::Continuous(values) => {
                &&& self.count == present(values).len()
                &&& self.count > 0
                &&& self.discreat_number is None
            },
            Content::Empty(values) => {
                &&& self.count == 0
                &&& present(values).len() == 0
                &&& self.discreat_number is None
            },
            Content::Discreat(texts) => {
                &&& self.count == texts.len()
                &&& self.discreat_number == Some(distinct_nonempty(texts))
                &&& distinct_nonempty(texts) < texts.len() / 10
            },
            Content::String(texts) => {
                &&& self.count == texts.len()
                &&& self.discreat_number is None
                &&& distinct_nonempty(texts) >= texts.len() / 10
            },
        }
    }

    /// Whatever is memoized of the least and the greatest reading and of the
    /// quartiles is that statistic of the content. Of the mean and the
    /// deviation, which are handed in, only this is held: that the column is
    /// continuous, and that no deviation is memoized without a mean.
    pub open spec fn memo_sound(self) -> bool {
        &&& self.min is Some ==> self.min == self.min_max().0
        &&& self.max is Some ==> self.max == self.min_max().1
        &&& self.min is Some <==> self.max is Some
        &&& self.quart is Some ==> self.quantiles() is Some && self.quart == Some(
            self.quantiles().unwrap().0,
        )
        &&& self.median is Some ==> self.quantiles() is Some && self.median == Some(
            self.quantiles().unwrap().1,
        )
        &&& self.last_quart is Some ==> self.quantiles() is Some && self.last_quart == Some(
            self.quantiles().unwrap().2,
        )
        &&& self.quart is Some <==> self.median is Some
        &&& self.median is Some <==> self.last_quart is Some
        &&& self.mean is Some ==> self.is_continuous()
        &&& self.std is Some ==> self.mean is Some
    }

    pub open spec fn wf(self) -> bool {
        self.classified() && self.memo_sound()
    }

    /// The column with its least and greatest reading memoized.
    pub open spec fn with_min_max(self) -> FeatureView {
        FeatureView { min: self.min_max().0, max: self.min_max().1, ..self }
    }

    /// The column with its quartiles memoized.
    pub open spec fn with_quantiles(self) -> FeatureView {
        match self.quantiles() {
            Some(q) => FeatureView {
                quart: Some(q.0),
                median: Some(q.1),
                last_quart: Some(q.2),
                ..self
            },
            None => self,
        }
    }

    /// The column with `mean` memoized, unless a mean is memoized already or
    /// the column has none.
    pub open spec fn with_mean(self, mean: Number) -> FeatureView {
        if self.is_continuous() && self.mean is None {
            FeatureView { mean: Some(mean), ..self }
        } else {
            self
        }
    }

    /// The column with `std` memoized, unless a deviation is memoized
    /// already or no mean is.
    pub open spec fn with_std(self, std: Number) -> FeatureView {
        if self.mean is Some && self.std is None {
            FeatureView { std: Some(std), ..self }
        } else {
            self
        }
    }

    /// The column with everything memoized that it has: `mean` and `std`
    /// where none is memoized yet, the least and the greatest reading, and
    /// the quartiles.
    pub open spec fn with_all(self, mean: Number, std: Number) -> FeatureView {
        self.with_mean(mean).with_std(std).with_min_max().with_quantiles()
    }

    /// Every statistic that the column has is memoized.
    pub open spec fn complete(self) -> bool {
        self.is_continuous() ==> forall|metric: Metric| (#[trigger] self.memo(metric)) is Some
    }
}

/// A column as it is when just classified: nothing memoized yet.
pub open spec fn classified_as(name: Seq<char>, entries: Seq<Entry>) -> FeatureView {
    FeatureView {
        name,
        content: classify(entries),
        count: if numeric_shaped(entries) {
            present(values_of(entries)).len()
        } else {
            entries.len()
        },
        mean: None,
        std: None,
        min: None,
        max: None,
        quart: None,
        median: None,
        last_quart: None,
        discreat_number: if classify(entries) is Discreat {
            Some(distinct_nonempty(entry_texts(entries)))
        } else {
            None
        },
    }
}

/// The statistics of a continuous column.
#[derive(Clone, Copy, Debug, PartialEq, Eq, Structural)]
pub enum Metric {
    Mean,
    Std,
    Quart,
    Median,
    LastQuart,
    Min,
    Max,
}

impl FeatureView {
    /// What is memoized of a statistic.
    pub open spec fn memo(self, metric: Metric) -> Option<Number> {
        match metric {
            Metric::Mean => self.mean,
            Metric::Std => self.std,
            Metric::Quart => self.quart,
            Metric::Median => self.median,
            Metric::LastQuart => self.last_quart,
            Metric::Min => self.min,
            Metric::Max => self.max,
        }
    }
}

/// In a column of numbers and blanks, the count is the number of numbers,
/// not of cells; it is the number of terms of the mean and the deviation.
pub proof fn lemma_count_of_numeric_column(name: Seq<char>, entries: Seq<Entry>)
    requires
        numeric_shaped(entries),
    ensures
        classified_as(name, entries).count == present(values_of(entries)).len(),
        classified_as(name, entries).count <= entries.len(),
        classified_as(name, entries).content is Continuous || classified_as(
            name,
            entries,
        ).content is Empty,
        classified_as(name, entries).is_continuous() ==> classified_as(name, entries).terms().len()
            == classified_as(name, entries).count,
{
    lemma_present_push(values_of(entries), Value::Empty);
}

/// A column that holds a cell which is neither a number nor blank counts
/// its cells, and is discrete exactly if it has fewer different texts than
/// a tenth of them.
pub proof fn lemma_count_of_text_column(name: Seq<char>, entries: Seq<Entry>)
    requires
        !numeric_shaped(entries),
    ensures
        classified_as(name, entries).count == entries.len(),
        classified_as(name, entries).content is Discreat <==> distinct_nonempty(
            entry_texts(entries),
        ) < entries.len() / 10,
        classified_as(name, entries).content is String <==> distinct_nonempty(
            entry_texts(entries),
        ) >= entries.len() / 10,
{
}

/// Asking again gives the same answer: a statistic depends on the content
/// alone, memoizing changes no content, and what is memoized stays, whatever
/// number is handed in later.
pub proof fn lemma_getters_idempotent(f: FeatureView, mean: Number, std: Number, other: Number)
    requires
        f.wf(),
    ensures
        f.with_min_max().wf(),
        f.with_min_max().min_max() == f.min_max(),
        f.with_min_max().with_min_max() == f.with_min_max(),
        f.with_quantiles().wf(),
        f.with_quantiles().quantiles() == f.quantiles(),
        f.with_quantiles().with_quantiles() == f.with_quantiles(),
        f.with_mean(mean).wf(),
        f.with_mean(mean).with_mean(other) == f.with_mean(mean),
        f.with_mean(mean).with_std(std).wf(),
        f.with_mean(mean).with_std(std).with_mean(other).with_std(other) == f.with_mean(
            mean,
        ).with_std(std),
        f.with_min_max().content == f.content,
        f.with_quantiles().content == f.content,
        f.with_mean(mean).content == f.content,
        f.with_mean(mean).with_std(std).content == f.content,
{
}

/// Once every getter has been asked, a continuous column has all seven
/// statistics memoized, and asking them all again changes nothing.
pub proof fn lemma_all_memoized(
    f: FeatureView,
    mean: Number,
    std: Number,
    later_mean: Number,
    later_std: Number,
)
    requires
        f.wf(),
    ensures
        f.with_all(mean, std).wf(),
        f.with_all(mean, std).complete(),
        f.with_all(mean, std).with_all(later_mean, later_std) == f.with_all(mean, std),
        f.with_all(mean, std).content == f.content,
        f.with_all(mean, std).count == f.count,
        f.with_all(mean, std).name == f.name,
        f.with_all(mean, std).discreat_number == f.discreat_number,
{
    let g = f.with_all(mean, std);
    if g.is_continuous() {
        assert forall|metric: Metric| (#[trigger] g.memo(metric)) is Some by {
            match metric {
                Metric::Mean => {},
                Metric::Std => {},
                Metric::Quart => {},
                Metric::Median => {},
                Metric::LastQuart => {},
                Metric::Min => {},
                Metric::Max => {},
            }
        }
    }
}

/// Only a continuous column has statistics, and only a discrete one a
/// number of different values.
pub proof fn lemma_statistics_by_kind(f: FeatureView, metric: Metric)
    requires
        f.wf(),
    ensures
        !f.is_continuous() ==> f.memo(metric) is None,
        !f.is_continuous() ==> f.min_max() == (None::<Number>, None::<Number>) && f.quantiles()
            is None,
        f.discreat_number is Some <==> f.content is Discreat,
{
}

/// One column: its name, its content, and its statistics, each memoized
/// when first asked for and kept from then on. The least and the greatest
/// reading and the quartiles are worked out here; the mean and the deviation
/// are sums and roots of real numbers, which the caller works out from the
/// terms handed to it and hands in with the question.
#[derive(Debug)]
pub struct Feature {
    name: String,
    content: FeatureContainer,
    count: usize,
    mean: Option<Number>,
    std: Option<Number>,
    min: Option<Number>,
    max: Option<Number>,
    quart: Option<Number>,
    median: Option<Number>,
    last_quart: Option<Number>,
    discreat_number: Option<usize>,
}

impl View for Feature {
    type V = FeatureView;

    closed spec fn view(&self) -> FeatureView {
        FeatureView {
            name: self.name@,
            content: self.content@,
            count: self.count as nat,
            mean: self.mean,
            std: self.std,
            min: self.min,
            max: self.max,
            quart: self.quart,
            median: self.median,
            last_quart: self.last_quart,
            discreat_number: match self.discreat_number {
                Some(n) => Some(n as nat),
                None => None,
            },
        }
    }
}

/// Reads the cells as numbers and blanks; `None` at the first cell that is
/// neither.
fn numeric_values(entries: &Vec<Entry>) -> (r: Option<Vec<Value>>)
    ensures
        r is Some <==> numeric_shaped(entries@),
        r matches Some(values) ==> values@ == values_of(entries@),
{
    let mut values: Vec<Value> = Vec::new();
    let mut i: usize = 0;
    while i < entries.len()
        invariant
            i <= entries.len(),
            values.len() == i,
            forall|k: int| 0 <= k < i ==> #[trigger] entry_value(entries@[k]) == Some(values@[k]),
        decreases entries.len() - i,
    {
        match entries[i].reading {
            Some(n) => {
                values.push(Value::Exist(n));
            },
            None => {
                if is_blank(entries[i].text.as_str()) {
                    values.push(Value::Empty);
                } else {
                    assert(entry_value(entries@[i as int]) is None);
                    return None;
                }
            },
        }
        i = i + 1;
    }
    assert(values@ =~= values_of(entries@));
    Some(values)
}

/// Copies the texts of the cells.
fn raw_texts(entries: &Vec<Entry>) -> (raw: Vec<String>)
    ensures
        raw.len() == entries.len(),
        texts_of(raw@) == entry_texts(entries@),
{
    let mut raw: Vec<String> = Vec::new();
    let mut i: usize = 0;
    while i < entries.len()
        invariant
            i <= entries.len(),
            raw.len() == i,
            forall|k: int| 0 <= k < i ==> (#[trigger] raw@[k])@ == entries@[k].text@,
        decreases entries.len() - i,
    {
        raw.push(entries[i].text.clone());
        i = i + 1;
    }
    assert(texts_of(raw@) =~= entry_texts(entries@));
    raw
}

impl Feature {
    /// Classifies a column. Where every cell is a number or blank, the
    /// column is continuous, or empty if it holds no number, and its count
    /// is the number of numbers. Otherwise its count is the number of cells,
    /// and it is discrete if it holds fewer different texts than a tenth of
    /// that, free text if not.
    pub fn new(name: String, entries: Vec<Entry>) -> (f: Feature)
        ensures
            f@ == classified_as(name@, entries@),
            f@.wf(),
    {
        let count: usize;
        let discreat_number: Option<usize>;
        let content: FeatureContainer;
        match numeric_values(&entries) {
            Some(values) => {
                count = present_count(&values);
                discreat_number = None;
                if count > 0 {
                    content = FeatureContainer::Continuous(values);
                } else {
                    content = FeatureContainer::Empty(values);
                }
            },
            None => {
                let raw = raw_texts(&entries);
                let number_of_values: usize = count_distinct(&raw);
                count = raw.len();
                if number_of_values < count / 10 {
                    discreat_number = Some(number_of_values);
                    content = FeatureContainer::Discreat(raw);
                } else {
                    discreat_number = None;
                    content = FeatureContainer::String(raw);
                }
            },
        }
        let f = Feature {
            name,
            content,
            count,
            mean: None,
            std: None,
            min: None,
            max: None,
            quart: None,
            median: None,
            last_quart: None,
            discreat_number,
        };
        f
    }

    /// The least and the greatest reading of a continuous column, computed
    /// at the first call and kept.
    pub fn get_min_max(&mut self) -> (r: (Option<Number>, Option<Number>))
        requires
            old(self)@.wf(),
        ensures
            r == old(self)@.min_max(),
            final(self)@ == old(self)@.with_min_max(),
            final(self)@.wf(),
    {
        let (min, max) = match (self.min, self.max, &self.content) {
            (Some(min), Some(max), _) => (Some(min), Some(max)),
            (None, None, FeatureContainer::Continuous(values)) => min_max(values),
            (_, _, _) => (None, None),
        };
        self.min = min;
        self.max = max;
        (self.min, self.max)
    }

    /// The least reading of a continuous column.
    pub fn get_min(&mut self) -> (r: Option<Number>)
        requires
            old(self)@.wf(),
        ensures
            r == old(self)@.min_max().0,
            final(self)@ == old(self)@.with_min_max(),
            final(self)@.wf(),
    {
        let (min, _) = self.get_min_max();
        min
    }

    /// The greatest reading of a continuous column.
    pub fn get_max(&mut self) -> (r: Option<Number>)
        requires
            old(self)@.wf(),
        ensures
            r == old(self)@.min_max().1,
            final(self)@ == old(self)@.with_min_max(),
            final(self)@.wf(),
    {
        let (_, max) = self.get_min_max();
        max
    }

    /// The three quartiles of a continuous column, by nearest rank, computed
    /// at the first call and kept. With fewer than four readings a position
    /// points past the last sorted reading, which is then taken.
    pub fn get_quantils(&mut self) -> (r: Option<(Number, Number, Number)>)
        requires
            old(self)@.wf(),
        ensures
            r == old(self)@.quantiles(),
            final(self)@ == old(self)@.with_quantiles(),
            final(self)@.wf(),
    {
        match (self.quart, self.median, self.last_quart, &self.content) {
            (Some(quart), Some(median), Some(last_quart), _) => Some((quart, median, last_quart)),
            (_, _, _, FeatureContainer::Continuous(values)) => {
                let (quart, median, last_quart) = quantiles(values);
                self.quart = Some(quart);
                self.median = Some(median);
                self.last_quart = Some(last_quart);
                Some((quart, median, last_quart))
            },
            (_, _, _, _) => None,
        }
    }

    /// The first quartile of a continuous column.
    pub fn get_quart(&mut self) -> (r: Option<Number>)
        requires
            old(self)@.wf(),
        ensures
            r == (match old(self)@.quantiles() {
                Some(q) => Some(q.0),
                None => None,
            }),
            final(self)@ == old(self)@.with_quantiles(),
            final(self)@.wf(),
    {
        match self.get_quantils() {
            None => None,
            Some((quart, _, _)) => Some(quart),
        }
    }

    /// The median of a continuous column.
    pub fn get_median(&mut self) -> (r: Option<Number>)
        requires
            old(self)@.wf(),
        ensures
            r == (match old(self)@.quantiles() {
                Some(q) => Some(q.1),
                None => None,
            }),
            final(self)@ == old(self)@.with_quantiles(),
            final(self)@.wf(),
    {
        match self.get_quantils() {
            None => None,
            Some((_, median, _)) => Some(median),
        }
    }

    /// The third quartile of a continuous column.
    pub fn get_last_quart(&mut self) -> (r: Option<Number>)
        requires
            old(self)@.wf(),
        ensures
            r == (match old(self)@.quantiles() {
                Some(q) => Some(q.2),
                None => None,
            }),
            final(self)@ == old(self)@.with_quantiles(),
            final(self)@.wf(),
    {
        match self.get_quantils() {
            None => None,
            Some((_, _, last_quart)) => Some(last_quart),
        }
    }

    /// The name of the column.
    pub fn name(&self) -> (r: &str)
        ensures
            r@ == self@.name,
    {
        self.name.as_str()
    }

    /// The content of the column.
    pub fn content(&self) -> (r: &FeatureContainer)
        ensures
            r@ == self@.content,
    {
        &self.content
    }

    /// The number of readings of a numeric column, of cells of any other.
    pub fn count(&self) -> (r: usize)
        ensures
            r == self@.count,
    {
        self.count
    }

    /// The number of different values of a discrete column.
    pub fn discreat_number(&self) -> (r: Option<usize>)
        ensures
            r is Some <==> self@.discreat_number is Some,
            r matches Some(n) ==> self@.discreat_number == Some(n as nat),
    {
        self.discreat_number
    }

    pub fn is_continuous(&self) -> (b: bool)
        ensures
            b == self@.is_continuous(),
    {
        match &self.content {
            FeatureContainer::Continuous(_) => true,
            _ => false,
        }
    }

    pub fn is_discreat(&self) -> (b: bool)
        ensures
            b == (self@.content is Discreat),
    {
        match &self.content {
            FeatureContainer::Discreat(_) => true,
            _ => false,
        }
    }

    /// What is memoized of a statistic; nothing is computed.
    pub fn memo(&self, metric: Metric) -> (r: Option<Number>)
        ensures
            r == self@.memo(metric),
    {
        match metric {
            Metric::Mean => self.mean,
            Metric::Std => self.std,
            Metric::Quart => self.quart,
            Metric::Median => self.median,
            Metric::LastQuart => self.last_quart,
            Metric::Min => self.min,
            Metric::Max => self.max,
        }
    }

    /// Memoizes `mean`, which the caller has worked out as the sum of
    /// `mean_terms` over `count`, unless a mean is memoized already; gives
    /// the memoized mean. A column that is not continuous has none.
    pub fn get_mean(&mut self, mean: Number) -> (r: Option<Number>)
        requires
            old(self)@.wf(),
        ensures
            final(self)@ == old(self)@.with_mean(mean),
            r == final(self)@.mean,
            r is Some <==> old(self)@.is_continuous(),
            final(self)@.wf(),
    {
        if self.is_continuous() && self.mean.is_none() {
            self.mean = Some(mean);
        }
        self.mean
    }

    /// Memoizes `mean` as `get_mean` does, then `std`, which the caller has
    /// worked out from `std_terms` and the memoized mean, unless a deviation
    /// is memoized already; gives the memoized deviation. A column that is
    /// not continuous has none.
    pub fn get_std(&mut self, mean: Number, std: Number) -> (r: Option<Number>)
        requires
            old(self)@.wf(),
        ensures
            final(self)@ == old(self)@.with_mean(mean).with_std(std),
            r == final(self)@.std,
            r is Some <==> old(self)@.is_continuous(),
            final(self)@.wf(),
    {
        self.get_mean(mean);
        if self.mean.is_some() && self.std.is_none() {
            self.std = Some(std);
        }
        self.std
    }

    /// The readings to take the mean of, where the column has a mean and
    /// none is memoized yet: their sum over `count` is the mean.
    pub fn mean_terms(&self) -> (r: Option<Vec<Number>>)
        requires
            self@.wf(),
        ensures
            r is Some <==> self@.is_continuous() && self@.mean is None,
            r matches Some(terms) ==> terms@ == self@.terms() && terms@.len() == self@.count,
    {
        match (self.mean, &self.content) {
            (None, FeatureContainer::Continuous(values)) => Some(present_values(values)),
            (_, _) => None,
        }
    }

    /// The readings to take the deviation of, where the column has a
    /// deviation and none is memoized yet: the root of the sum of their
    /// squared distances from the mean over `count` is the deviation.
    pub fn std_terms(&self) -> (r: Option<Vec<Number>>)
        requires
            self@.wf(),
        ensures
            r is Some <==> self@.is_continuous() && self@.std is None,
            r matches Some(terms) ==> terms@ == self@.terms() && terms@.len() == self@.count,
    {
        match (self.std, &self.content) {
            (None, FeatureContainer::Continuous(values)) => Some(present_values(values)),
            (_, _) => None,
        }
    }
}

} // verus!
