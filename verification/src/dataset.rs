//! A table as an ordered sequence of columns, and the two summary tables
//! drawn from it.

use crate::feature::{
    classified_as, lemma_all_memoized, lemma_getters_idempotent, lemma_statistics_by_kind, Entry,
    Feature, FeatureView, Metric,
};
use crate::number::Number;
use crate::text::texts_of;
use vstd::prelude::*;

verus! {

/// Every column is well formed.
pub open spec fn all_wf(features: Seq<FeatureView>) -> bool {
    forall|i: int| 0 <= i < features.len() ==> (#[trigger] features[i]).wf()
}

/// The names of the continuous columns, in column order.
pub open spec fn continuous_names(features: Seq<FeatureView>) -> Seq<Seq<char>>
    decreases features.len(),
{
    if features.len() == 0 {
        Seq::empty()
    } else if features.last().is_continuous() {
        continuous_names(features.drop_last()).push(features.last().name)
    } else {
        continuous_names(features.drop_last())
    }
}

/// The names of the discrete columns, in column order.
pub open spec fn discreat_names(features: Seq<FeatureView>) -> Seq<Seq<char>>
    decreases features.len(),
{
    if features.len() == 0 {
        Seq::empty()
    } else if features.last().content is Discreat {
        discreat_names(features.drop_last()).push(features.last().name)
    } else {
        discreat_names(features.drop_last())
    }
}

/// What the columns have memoized of a statistic, in column order, columns
/// without it left out.
pub open spec fn metric_cells(features: Seq<FeatureView>, metric: Metric) -> Seq<Number>
    decreases features.len(),
{
    if features.len() == 0 {
        Seq::empty()
    } else {
        match features.last().memo(metric) {
            Some(n) => metric_cells(features.drop_last(), metric).push(n),
            None => metric_cells(features.drop_last(), metric),
        }
    }
}

/// The numbers of different values of the columns that have one, in column
/// order.
pub open spec fn discreat_numbers(features: Seq<FeatureView>) -> Seq<nat>
    decreases features.len(),
{
    if features.len() == 0 {
        Seq::empty()
    } else {
        match features.last().discreat_number {
            Some(n) => discreat_numbers(features.drop_last()).push(n),
            None => discreat_numbers(features.drop_last()),
        }
    }
}

/// Every column with all that it has memoized: the mean and the deviation
/// of its pair in `moments`, where none is memoized yet, and its least,
/// greatest and quartile readings. The mean and the deviation are not
/// worked out here: they are the numbers handed in.
pub open spec fn computed(features: Seq<FeatureView>, moments: Seq<(Number, Number)>) -> Seq<
    FeatureView,
> {
    Seq::new(features.len(), |i: int| features[i].with_all(moments[i].0, moments[i].1))
}

/// Every continuous column has all seven statistics memoized.
pub open spec fn all_complete(features: Seq<FeatureView>) -> bool {
    forall|i: int| 0 <= i < features.len() ==> (#[trigger] features[i]).complete()
}

/// The statistics in the order of the rows that show them.
pub open spec fn metric_order() -> Seq<Metric> {
    seq![
        Metric::Mean,
        Metric::Std,
        Metric::Quart,
        Metric::Median,
        Metric::LastQuart,
        Metric::Min,
        Metric::Max,
    ]
}

/// One row of the table of continuous columns: a statistic, and its value
/// for each column that has it.
#[derive(Debug)]
pub struct MetricRow {
    pub metric: Metric,
    pub cells: Vec<Number>,
}

/// The table of continuous columns and the table of discrete ones.
#[derive(Debug)]
pub struct Summary {
    /// The names of the continuous columns.
    pub continuous: Vec<String>,
    /// One row for each statistic.
    pub metrics: Vec<MetricRow>,
    /// The names of the discrete columns.
    pub discreat: Vec<String>,
    /// The number of different values of each discrete column.
    pub different_values: Vec<usize>,
}

/// The counts as natural numbers.
pub open spec fn counts_view(counts: Seq<usize>) -> Seq<nat> {
    Seq::new(counts.len(), |i: int| counts[i] as nat)
}

impl Summary {
    /// The label that heads the row of column names in both tables.
    pub fn header_label() -> (r: &'static str)
        ensures
            r@ == "Metrics"@,
    {
        "Metrics"
    }

    /// The label that heads the row of the numbers of different values.
    pub fn different_values_label() -> (r: &'static str)
        ensures
            r@ == "Number of different values"@,
    {
        "Number of different values"
    }

    /// Every row of statistics has one cell for each continuous column.
    pub open spec fn full(self) -> bool {
        forall|k: int|
            0 <= k < self.metrics@.len() ==> (#[trigger] self.metrics@[k]).cells@.len()
                == self.continuous@.len()
    }

    /// The summary shows `features` as they stand.
    pub open spec fn shows(self, features: Seq<FeatureView>) -> bool {
        &&& texts_of(self.continuous@) == continuous_names(features)
        &&& self.metrics@.len() == 7
        &&& forall|k: int|
            0 <= k < 7 ==> (#[trigger] self.metrics@[k]).metric == metric_order()[k]
                && self.metrics@[k].cells@ == metric_cells(features, metric_order()[k])
        &&& texts_of(self.discreat@) == discreat_names(features)
        &&& counts_view(self.different_values@) == discreat_numbers(features)
    }
}

/// The columns of a table, in the order of the source.
#[derive(Debug)]
pub struct Dataset {
    features: Vec<Feature>,
}

impl View for Dataset {
    type V = Seq<FeatureView>;

    closed spec fn view(&self) -> Seq<FeatureView> {
        Seq::new(self.features@.len(), |i: int| self.features@[i]@)
    }
}

impl Metric {
    /// The text that heads the row of the statistic.
    pub open spec fn label_text(self) -> Seq<char> {
        match self {
            Metric::Mean => "Mean"@,
            Metric::Std => "Std"@,
            Metric::Quart => "25%"@,
            Metric::Median => "50%"@,
            Metric::LastQuart => "75%"@,
            Metric::Min => "Min"@,
            Metric::Max => "Max"@,
        }
    }

    pub fn label(&self) -> (r: &'static str)
        ensures
            r@ == self.label_text(),
    {
        match self {
            Metric::Mean => "Mean",
            Metric::Std => "Std",
            Metric::Quart => "25%",
            Metric::Median => "50%",
            Metric::LastQuart => "75%",
            Metric::Min => "Min",
            Metric::Max => "Max",
        }
    }
}

proof fn lemma_names_step(features: Seq<FeatureView>, i: int)
    requires
        0 <= i < features.len(),
    ensures
        continuous_names(features.take(i + 1)) == (if features[i].is_continuous() {
            continuous_names(features.take(i)).push(features[i].name)
        } else {
            continuous_names(features.take(i))
        }),
        discreat_names(features.take(i + 1)) == (if features[i].content is Discreat {
            discreat_names(features.take(i)).push(features[i].name)
        } else {
            discreat_names(features.take(i))
        }),
        discreat_numbers(features.take(i + 1)) == (match features[i].discreat_number {
            Some(n) => discreat_numbers(features.take(i)).push(n),
            None => discreat_numbers(features.take(i)),
        }),
{
    assert(features.take(i + 1).drop_last() =~= features.take(i));
}

proof fn lemma_cells_step(features: Seq<FeatureView>, metric: Metric, i: int)
    requires
        0 <= i < features.len(),
    ensures
        metric_cells(features.take(i + 1), metric) == (match features[i].memo(metric) {
            Some(n) => metric_cells(features.take(i), metric).push(n),
            None => metric_cells(features.take(i), metric),
        }),
{
    assert(features.take(i + 1).drop_last() =~= features.take(i));
}

/// The table of continuous columns names exactly the continuous columns,
/// and the table of discrete columns exactly the discrete ones, each with
/// its number of different values: a column of free text or of blanks is in
/// neither.
pub proof fn lemma_listed_columns(features: Seq<FeatureView>)
    requires
        all_wf(features),
    ensures
        forall|name: Seq<char>|
            continuous_names(features).contains(name) <==> exists|i: int|
                0 <= i < features.len() && (#[trigger] features[i]).is_continuous()
                    && features[i].name == name,
        forall|name: Seq<char>|
            discreat_names(features).contains(name) <==> exists|i: int|
                0 <= i < features.len() && (#[trigger] features[i]).content is Discreat
                    && features[i].name == name,
        discreat_numbers(features).len() == discreat_names(features).len(),
        continuous_names(features).len() + discreat_names(features).len() <= features.len(),
    decreases features.len(),
{
    if features.len() > 0 {
        let rest = features.drop_last();
        let last = features.last();
        assert(all_wf(rest)) by {
            assert forall|i: int| 0 <= i < rest.len() implies (#[trigger] rest[i]).wf() by {
                assert(rest[i] == features[i]);
            }
        }
        assert(last == features[features.len() - 1]);
        assert(last.wf());
        lemma_listed_columns(rest);
        assert forall|name: Seq<char>|
            continuous_names(features).contains(name) <==> exists|i: int|
                0 <= i < features.len() && (#[trigger] features[i]).is_continuous()
                    && features[i].name == name by {
            lemma_contains_pushed(continuous_names(rest), last.name, name);
            if continuous_names(rest).contains(name) {
                let i = choose|i: int|
                    0 <= i < rest.len() && (#[trigger] rest[i]).is_continuous() && rest[i].name
                        == name;
                assert(features[i] == rest[i]);
            }
            if exists|i: int|
                0 <= i < features.len() && (#[trigger] features[i]).is_continuous()
                    && features[i].name == name {
                let i = choose|i: int|
                    0 <= i < features.len() && (#[trigger] features[i]).is_continuous()
                        && features[i].name == name;
                if i < rest.len() {
                    assert(rest[i] == features[i]);
                }
            }
        }
        assert forall|name: Seq<char>|
            discreat_names(features).contains(name) <==> exists|i: int|
                0 <= i < features.len() && (#[trigger] features[i]).content is Discreat
                    && features[i].name == name by {
            lemma_contains_pushed(discreat_names(rest), last.name, name);
            if discreat_names(rest).contains(name) {
                let i = choose|i: int|
                    0 <= i < rest.len() && (#[trigger] rest[i]).content is Discreat && rest[i].name
                        == name;
                assert(features[i] == rest[i]);
            }
            if exists|i: int|
                0 <= i < features.len() && (#[trigger] features[i]).content is Discreat
                    && features[i].name == name {
                let i = choose|i: int|
                    0 <= i < features.len() && (#[trigger] features[i]).content is Discreat
                        && features[i].name == name;
                if i < rest.len() {
                    assert(rest[i] == features[i]);
                }
            }
        }
    }
}

proof fn lemma_contains_pushed(s: Seq<Seq<char>>, x: Seq<char>, y: Seq<char>)
    ensures
        s.push(x).contains(y) <==> s.contains(y) || x == y,
{
    if s.contains(y) {
        let i = choose|i: int| 0 <= i < s.len() && s[i] == y;
        assert(s.push(x)[i] == y);
    }
    if x == y {
        assert(s.push(x)[s.len() as int] == y);
    }
    if s.push(x).contains(y) {
        let i = choose|i: int| 0 <= i < s.push(x).len() && s.push(x)[i] == y;
        if i < s.len() {
            assert(s[i] == y);
        }
    }
}

/// Computing leaves every continuous column with all seven statistics
/// memoized, and computing again changes nothing, whatever numbers are
/// handed in the second time.
pub proof fn lemma_compute_idempotent(
    features: Seq<FeatureView>,
    moments: Seq<(Number, Number)>,
    others: Seq<(Number, Number)>,
)
    requires
        all_wf(features),
    ensures
        all_wf(computed(features, moments)),
        all_complete(computed(features, moments)),
        computed(computed(features, moments), others) == computed(features, moments),
        computed(features, moments).len() == features.len(),
        forall|i: int|
            0 <= i < features.len() ==> (#[trigger] computed(features, moments)[i]).content
                == features[i].content && computed(features, moments)[i].name == features[i].name
                && computed(features, moments)[i].count == features[i].count && computed(
                features,
                moments,
            )[i].discreat_number == features[i].discreat_number,
{
    let done = computed(features, moments);
    assert forall|i: int| 0 <= i < features.len() implies (#[trigger] done[i]).wf()
        && done[i].complete() && computed(done, others)[i] == done[i] && done[i].content
        == features[i].content && done[i].name == features[i].name && done[i].count
        == features[i].count && done[i].discreat_number == features[i].discreat_number by {
        assert(features[i].wf());
        lemma_all_memoized(features[i], moments[i].0, moments[i].1, others[i].0, others[i].1);
    }
    assert(computed(done, others) =~= done);
}

/// Where every continuous column has a statistic memoized, its row has one
/// cell for each continuous column.
pub proof fn lemma_full_row(features: Seq<FeatureView>, metric: Metric)
    requires
        all_wf(features),
        all_complete(features),
    ensures
        metric_cells(features, metric).len() == continuous_names(features).len(),
    decreases features.len(),
{
    if features.len() > 0 {
        let rest = features.drop_last();
        let last = features.last();
        assert forall|i: int| 0 <= i < rest.len() implies (#[trigger] rest[i]).wf()
            && rest[i].complete() by {
            assert(rest[i] == features[i]);
        }
        assert(last == features[features.len() - 1]);
        assert(last.wf() && last.complete());
        lemma_full_row(rest, metric);
        lemma_statistics_by_kind(last, metric);
        if last.is_continuous() {
            assert(last.memo(metric) is Some);
        }
    }
}

impl Dataset {
    /// Classifies each column of a table, keeping the order of the columns.
    pub fn from_file(columns: Vec<(String, Vec<Entry>)>) -> (d: Dataset)
        ensures
            d@.len() == columns@.len(),
            forall|i: int|
                0 <= i < columns@.len() ==> #[trigger] d@[i] == classified_as(
                    columns@[i].0@,
                    columns@[i].1@,
                ),
            all_wf(d@),
    {
        let ghost all = columns@;
        let mut columns = columns;
        let mut reversed: Vec<Feature> = Vec::new();
        while columns.len() > 0
            invariant
                columns@.len() + reversed@.len() == all.len(),
                columns@ == all.take(columns@.len() as int),
                forall|k: int|
                    0 <= k < reversed@.len() ==> (#[trigger] reversed@[k])@ == classified_as(
                        all[all.len() - 1 - k].0@,
                        all[all.len() - 1 - k].1@,
                    ) && reversed@[k]@.wf(),
            decreases columns.len(),
        {
            let ghost n = columns@.len();
            let (name, entries) = columns.pop().unwrap();
            assert(columns@ =~= all.take(n - 1));
            reversed.push(Feature::new(name, entries));
        }
        let ghost built = reversed@;
        let mut features: Vec<Feature> = Vec::new();
        while reversed.len() > 0
            invariant
                reversed@.len() + features@.len() == all.len(),
                reversed@ == built.take(reversed@.len() as int),
                built.len() == all.len(),
                forall|k: int| 0 <= k < features@.len() ==> #[trigger] features@[k] == built[all.len() - 1 - k],
            decreases reversed.len(),
        {
            let ghost n = reversed@.len();
            let f = reversed.pop().unwrap();
            assert(reversed@ =~= built.take(n - 1));
            features.push(f);
        }
        Dataset { features }
    }

    /// The number of columns.
    pub fn len(&self) -> (n: usize)
        ensures
            n == self@.len(),
    {
        self.features.len()
    }

    /// The column at position `i`.
    pub fn feature(&self, i: usize) -> (f: &Feature)
        requires
            i < self@.len(),
        ensures
            f@ == self@[i as int],
    {
        &self.features[i]
    }

    /// Memoizes `mean` as the mean of column `i`, unless one is memoized
    /// already, and gives the memoized mean.
    pub fn get_mean(&mut self, i: usize, mean: Number) -> (r: Option<Number>)
        requires
            i < old(self)@.len(),
            all_wf(old(self)@),
        ensures
            final(self)@ == old(self)@.update(i as int, old(self)@[i as int].with_mean(mean)),
            r == final(self)@[i as int].mean,
            r is Some <==> old(self)@[i as int].is_continuous(),
            all_wf(final(self)@),
    {
        let ghost before = self@;
        let r = self.features[i].get_mean(mean);
        assert(self@ =~= before.update(i as int, before[i as int].with_mean(mean)));
        r
    }

    /// Memoizes `mean` and `std` as the mean and the deviation of column
    /// `i`, each unless one is memoized already, and gives the memoized
    /// deviation.
    pub fn get_std(&mut self, i: usize, mean: Number, std: Number) -> (r: Option<Number>)
        requires
            i < old(self)@.len(),
            all_wf(old(self)@),
        ensures
            final(self)@ == old(self)@.update(
                i as int,
                old(self)@[i as int].with_mean(mean).with_std(std),
            ),
            r == final(self)@[i as int].std,
            r is Some <==> old(self)@[i as int].is_continuous(),
            all_wf(final(self)@),
    {
        let ghost before = self@;
        let r = self.features[i].get_std(mean, std);
        assert(self@ =~= before.update(i as int, before[i as int].with_mean(mean).with_std(std)));
        r
    }

    /// Asks every column for each of its seven statistics, so that all are
    /// memoized. `moments` holds, for each column in order, the mean and the
    /// deviation that the caller has worked out from `mean_terms` and
    /// `std_terms`; the pair of a column that is not continuous is not
    /// looked at.
    pub fn compute(&mut self, moments: &Vec<(Number, Number)>)
        requires
            all_wf(old(self)@),
            moments@.len() == old(self)@.len(),
        ensures
            final(self)@ == computed(old(self)@, moments@),
            all_wf(final(self)@),
            all_complete(final(self)@),
    {
        let ghost before = self@;
        let mut i: usize = 0;
        while i < self.features.len()
            invariant
                i <= self.features@.len(),
                self@.len() == before.len(),
                moments@.len() == before.len(),
                all_wf(before),
                forall|k: int| 0 <= k < i ==> #[trigger] self@[k] == computed(before, moments@)[k],
                forall|k: int| i <= k < before.len() ==> #[trigger] self@[k] == before[k],
            decreases self.features.len() - i,
        {
            let ghost at = self@;
            assert(at[i as int] == before[i as int]);
            let (mean, std) = moments[i];
            let feature = &mut self.features[i];
            feature.get_mean(mean);
            feature.get_std(mean, std);
            feature.get_min();
            feature.get_max();
            feature.get_quart();
            feature.get_median();
            feature.get_last_quart();
            proof {
                let v = before[i as int];
                lemma_getters_idempotent(v, mean, std, mean);
                let w = v.with_mean(mean).with_std(std);
                assert(v.with_mean(mean).with_mean(mean).with_std(std) == w);
                assert(w.with_min_max().with_min_max() == w.with_min_max());
                assert(w.with_min_max().with_quantiles().with_quantiles()
                    == w.with_min_max().with_quantiles());
                assert forall|k: int| 0 <= k < i + 1 implies #[trigger] self@[k] == computed(
                    before,
                    moments@,
                )[k] by {
                    if k < i {
                        assert(self@[k] == at[k]);
                    }
                }
                assert forall|k: int| i + 1 <= k < before.len() implies #[trigger] self@[k]
                    == before[k] by {
                    assert(self@[k] == at[k]);
                }
            }
            i = i + 1;
        }
        assert(self@ =~= computed(before, moments@));
        proof {
            lemma_compute_idempotent(before, moments@, moments@);
        }
    }

    /// The names of the continuous columns, or of the discrete ones.
    fn names(&self, continuous: bool) -> (r: Vec<String>)
        ensures
            texts_of(r@) == (if continuous {
                continuous_names(self@)
            } else {
                discreat_names(self@)
            }),
    {
        let mut r: Vec<String> = Vec::new();
        let mut i: usize = 0;
        assert(self@.take(0) =~= Seq::<FeatureView>::empty());
        assert(texts_of(r@) =~= Seq::<Seq<char>>::empty());
        while i < self.features.len()
            invariant
                i <= self.features@.len(),
                texts_of(r@) == (if continuous {
                    continuous_names(self@.take(i as int))
                } else {
                    discreat_names(self@.take(i as int))
                }),
            decreases self.features.len() - i,
        {
            proof {
                lemma_names_step(self@, i as int);
            }
            let feature = &self.features[i];
            let listed: bool = if continuous {
                feature.is_continuous()
            } else {
                feature.is_discreat()
            };
            if listed {
                let ghost before = texts_of(r@);
                r.push(feature.name().to_owned());
                assert(texts_of(r@) =~= before.push(self@[i as int].name));
            }
            i = i + 1;
        }
        assert(self@.take(self@.len() as int) =~= self@);
        r
    }

    /// The row of a statistic: what each column has memoized of it.
    fn metric_row(&self, metric: Metric) -> (r: MetricRow)
        ensures
            r.metric == metric,
            r.cells@ == metric_cells(self@, metric),
    {
        let mut cells: Vec<Number> = Vec::new();
        let mut i: usize = 0;
        assert(self@.take(0) =~= Seq::<FeatureView>::empty());
        while i < self.features.len()
            invariant
                i <= self.features@.len(),
                cells@ == metric_cells(self@.take(i as int), metric),
            decreases self.features.len() - i,
        {
            proof {
                lemma_cells_step(self@, metric, i as int);
            }
            match self.features[i].memo(metric) {
                Some(n) => {
                    cells.push(n);
                },
                None => {},
            }
            i = i + 1;
        }
        assert(self@.take(self@.len() as int) =~= self@);
        MetricRow { metric, cells }
    }

    /// The row of the numbers of different values.
    fn metric_row_usize(&self) -> (r: Vec<usize>)
        ensures
            counts_view(r@) == discreat_numbers(self@),
    {
        let mut r: Vec<usize> = Vec::new();
        let mut i: usize = 0;
        assert(self@.take(0) =~= Seq::<FeatureView>::empty());
        assert(counts_view(r@) =~= Seq::<nat>::empty());
        while i < self.features.len()
            invariant
                i <= self.features@.len(),
                counts_view(r@) == discreat_numbers(self@.take(i as int)),
            decreases self.features.len() - i,
        {
            proof {
                lemma_names_step(self@, i as int);
            }
            match self.features[i].discreat_number() {
                Some(n) => {
                    let ghost before = counts_view(r@);
                    r.push(n);
                    assert(counts_view(r@) =~= before.push(n as nat));
                },
                None => {},
            }
            i = i + 1;
        }
        assert(self@.take(self@.len() as int) =~= self@);
        r
    }

    /// Has every statistic memoized, as `compute` does with the same
    /// `moments`, then draws the two tables: the continuous columns with one
    /// row for each statistic, and the discrete columns with their numbers
    /// of different values. Every row of statistics has one cell for each
    /// continuous column.
    pub fn display(&mut self, moments: &Vec<(Number, Number)>) -> (summary: Summary)
        requires
            all_wf(old(self)@),
            moments@.len() == old(self)@.len(),
        ensures
            final(self)@ == computed(old(self)@, moments@),
            all_wf(final(self)@),
            all_complete(final(self)@),
            summary.shows(final(self)@),
            summary.full(),
    {
        self.compute(moments);
        let continuous = self.names(true);
        let mut metrics: Vec<MetricRow> = Vec::new();
        metrics.push(self.metric_row(Metric::Mean));
        metrics.push(self.metric_row(Metric::Std));
        metrics.push(self.metric_row(Metric::Quart));
        metrics.push(self.metric_row(Metric::Median));
        metrics.push(self.metric_row(Metric::LastQuart));
        metrics.push(self.metric_row(Metric::Min));
        metrics.push(self.metric_row(Metric::Max));
        let discreat = self.names(false);
        let different_values = self.metric_row_usize();
        proof {
            lemma_full_row(self@, Metric::Mean);
            lemma_full_row(self@, Metric::Std);
            lemma_full_row(self@, Metric::Quart);
            lemma_full_row(self@, Metric::Median);
            lemma_full_row(self@, Metric::LastQuart);
            lemma_full_row(self@, Metric::Min);
            lemma_full_row(self@, Metric::Max);
            assert(texts_of(continuous@).len() == continuous@.len());
        }
        Summary { continuous, metrics, discreat, different_values }
    }
}

} // verus!
