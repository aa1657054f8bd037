//! Order statistics of a column of readings, some of which may be missing.

use crate::number::Number;
use crate::order::{sort, Ranked};
use vstd::prelude::*;
use vstd::relations::{sorted_by, total_ordering};
use vstd::seq_lib::lemma_sorted_unique;

verus! {

/// One cell of a numeric column: a reading, or the mark of a missing one.
#[derive(Clone, Copy, Debug, PartialEq, Eq, Structural)]
pub enum Value {
    Exist(Number),
    Empty,
}

/// The readings of a column, in column order, missing entries left out.
pub open spec fn present(values: Seq<Value>) -> Seq<Number>
    decreases values.len(),
{
    if values.len() == 0 {
        Seq::empty()
    } else {
        match values.last() {
            Value::Exist(n) => present(values.drop_last()).push(n),
            Value::Empty => present(values.drop_last()),
        }
    }
}

/// The first reading that no other reading is less than, found in one pass
/// from the left; `s` is not empty.
pub open spec fn least(s: Seq<Number>) -> Number
    decreases s.len(),
{
    if s.len() <= 1 {
        s[0]
    } else if s.last().less_than(least(s.drop_last())) {
        s.last()
    } else {
        least(s.drop_last())
    }
}

/// The first reading that is less than no other reading, found in one pass
/// from the left; `s` is not empty.
pub open spec fn greatest(s: Seq<Number>) -> Number
    decreases s.len(),
{
    if s.len() <= 1 {
        s[0]
    } else if greatest(s.drop_last()).less_than(s.last()) {
        s.last()
    } else {
        greatest(s.drop_last())
    }
}

/// The order in which readings are sorted.
pub open spec fn encoding_order() -> spec_fn(Number, Number) -> bool {
    |a: Number, b: Number| a.precedes(b)
}

/// The readings of a column in ascending order.
pub open spec fn sorted_present(values: Seq<Value>) -> Seq<Number> {
    present(values).sort_by(encoding_order())
}

/// Position of the first quartile among `len` sorted readings.
pub open spec fn quart_index(len: int) -> int {
    (len + 1) / 4
}

/// Position of the median among `len` sorted readings.
pub open spec fn median_index(len: int) -> int {
    (len + 1) / 2
}

/// Position of the third quartile among `len` sorted readings.
pub open spec fn last_quart_index(len: int) -> int {
    len - len / 4
}

/// The position at which a quartile is read among `len` sorted readings,
/// `len` not 0: the position that the formula gives, or the last one where
/// the formula points past it, as it does with fewer than four readings.
pub open spec fn position(index: int, len: int) -> int {
    if index < len {
        index
    } else {
        len - 1
    }
}

/// The first, second and third quartile of a column, by nearest rank: the
/// sorted readings at the three positions, the last sorted reading where a
/// position lies past it; the not-a-number pattern three times where the
/// column has no reading.
pub open spec fn quantiles_of(values: Seq<Value>) -> (Number, Number, Number) {
    let sorted = sorted_present(values);
    let len = present(values).len() as int;
    if len == 0 {
        (Number { bits: 0x7fc0_0000 }, Number { bits: 0x7fc0_0000 }, Number { bits: 0x7fc0_0000 })
    } else {
        (
            sorted[position(quart_index(len), len)],
            sorted[position(median_index(len), len)],
            sorted[position(last_quart_index(len), len)],
        )
    }
}

/// The least and the greatest reading of a column; neither where the column
/// has no reading.
pub open spec fn min_max_of(values: Seq<Value>) -> (Option<Number>, Option<Number>) {
    let s = present(values);
    if s.len() == 0 {
        (None, None)
    } else {
        (Some(least(s)), Some(greatest(s)))
    }
}

pub proof fn lemma_present_push(values: Seq<Value>, v: Value)
    ensures
        present(values.push(v)) == match v {
            Value::Exist(n) => present(values).push(n),
            Value::Empty => present(values),
        },
        present(values).len() <= values.len(),
    decreases values.len(),
{
    assert(values.push(v).drop_last() =~= values);
    if values.len() > 0 {
        lemma_present_push(values.drop_last(), values.last());
        assert(values.drop_last().push(values.last()) =~= values);
    }
}

pub proof fn lemma_encoding_order_total()
    ensures
        total_ordering(encoding_order()),
{
    let leq = encoding_order();
    assert forall|x: Number, y: Number| #[trigger] leq(x, y) && #[trigger] leq(y, x) implies x
        == y by {
        crate::number::lemma_total_rank_injective(x, y);
    }
    assert forall|x: Number, y: Number, z: Number| #[trigger]
        leq(x, y) && #[trigger] leq(y, z) implies leq(x, z) by {}
    assert forall|x: Number, y: Number| #[trigger] leq(x, y) || #[trigger] leq(y, x) by {}
    assert forall|x: Number| #[trigger] leq(x, x) by {}
}

/// The sorted readings are the readings, each as often as in the column,
/// in the order of encodings; so no reading is less than one before it.
pub proof fn lemma_sorted_present(values: Seq<Value>)
    ensures
        sorted_present(values).to_multiset() == present(values).to_multiset(),
        sorted_present(values).len() == present(values).len(),
        forall|i: int, j: int|
            0 <= i < j < sorted_present(values).len() ==> (#[trigger] sorted_present(
                values,
            )[i]).precedes(#[trigger] sorted_present(values)[j]),
        forall|i: int, j: int|
            0 <= i < j < sorted_present(values).len() ==> !(#[trigger] sorted_present(
                values,
            )[j]).less_than(#[trigger] sorted_present(values)[i]),
{
    broadcast use vstd::seq_lib::group_to_multiset_ensures;

    let leq = encoding_order();
    let sorted = sorted_present(values);
    lemma_encoding_order_total();
    present(values).lemma_sort_by_ensures(leq);
    vstd::seq_lib::to_multiset_len(sorted);
    vstd::seq_lib::to_multiset_len(present(values));
    assert forall|i: int, j: int| 0 <= i < j < sorted.len() implies (#[trigger] sorted[i]).precedes(
        #[trigger] sorted[j],
    ) by {
        assert(leq(sorted[i], sorted[j]));
    }
    assert forall|i: int, j: int| 0 <= i < j < sorted.len() implies !(#[trigger] sorted[j]).less_than(
        #[trigger] sorted[i],
    ) by {
        assert(sorted[i].precedes(sorted[j]));
        if sorted[j].less_than(sorted[i]) {
            crate::number::lemma_less_than_implies_precedes(sorted[j], sorted[i]);
        }
    }
}

/// With four readings or more, the three quartile positions lie inside the
/// sorted readings, in this order, and the quartiles are read exactly there.
pub proof fn lemma_quantile_positions(len: int)
    requires
        len >= 4,
    ensures
        0 < quart_index(len) <= median_index(len) <= last_quart_index(len) < len,
        position(quart_index(len), len) == quart_index(len),
        position(median_index(len), len) == median_index(len),
        position(last_quart_index(len), len) == last_quart_index(len),
{
}

/// With any reading at all, the three quartiles are read inside the sorted
/// readings, none before an earlier one.
pub proof fn lemma_quantiles_are_readings(len: int)
    requires
        len > 0,
    ensures
        0 <= position(quart_index(len), len) <= position(median_index(len), len) <= position(
            last_quart_index(len),
            len,
        ) < len,
{
}

/// The least and the greatest reading are readings of the column.
pub proof fn lemma_least_is_reading(s: Seq<Number>)
    requires
        s.len() > 0,
    ensures
        s.contains(least(s)),
        s.contains(greatest(s)),
    decreases s.len(),
{
    if s.len() > 1 {
        lemma_least_is_reading(s.drop_last());
        let i = choose|i: int| 0 <= i < s.drop_last().len() && s.drop_last()[i] == least(
            s.drop_last(),
        );
        assert(s[i] == least(s.drop_last()));
        let j = choose|j: int| 0 <= j < s.drop_last().len() && s.drop_last()[j] == greatest(
            s.drop_last(),
        );
        assert(s[j] == greatest(s.drop_last()));
        assert(s[s.len() - 1] == s.last());
    } else {
        assert(s[0] == least(s));
    }
}

/// Where every reading is a number, none is less than the least, and the
/// greatest is less than none.
pub proof fn lemma_least_is_minimum(s: Seq<Number>)
    requires
        s.len() > 0,
        forall|i: int| 0 <= i < s.len() ==> !(#[trigger] s[i]).is_nan(),
    ensures
        !least(s).is_nan(),
        !greatest(s).is_nan(),
        forall|i: int| 0 <= i < s.len() ==> !(#[trigger] s[i]).less_than(least(s)),
        forall|i: int| 0 <= i < s.len() ==> !greatest(s).less_than(#[trigger] s[i]),
    decreases s.len(),
{
    if s.len() > 1 {
        let t = s.drop_last();
        assert forall|i: int| 0 <= i < t.len() implies !(#[trigger] t[i]).is_nan() by {
            assert(t[i] == s[i]);
        }
        lemma_least_is_minimum(t);
        assert forall|i: int| 0 <= i < s.len() implies !(#[trigger] s[i]).less_than(least(s)) by {
            if i < t.len() {
                assert(!t[i].less_than(least(t)));
            }
        }
        assert forall|i: int| 0 <= i < s.len() implies !greatest(s).less_than(#[trigger] s[i]) by {
            if i < t.len() {
                assert(!greatest(t).less_than(t[i]));
            }
        }
    }
}

/// A column without readings has the not-a-number pattern for each
/// quartile, and neither a least nor a greatest reading.
pub proof fn lemma_no_reading(values: Seq<Value>)
    requires
        present(values).len() == 0,
    ensures
        quantiles_of(values).0.is_nan(),
        quantiles_of(values).1.is_nan(),
        quantiles_of(values).2.is_nan(),
        min_max_of(values) == (None::<Number>, None::<Number>),
{
}

/// Collects the readings of a column, in column order.
pub fn present_values(values: &Vec<Value>) -> (r: Vec<Number>)
    ensures
        r@ == present(values@),
{
    let mut r: Vec<Number> = Vec::new();
    let mut i: usize = 0;
    assert(values@.take(0) =~= Seq::<Value>::empty());
    while i < values.len()
        invariant
            i <= values.len(),
            r@ == present(values@.take(i as int)),
        decreases values.len() - i,
    {
        proof {
            lemma_present_push(values@.take(i as int), values@[i as int]);
            assert(values@.take(i + 1) =~= values@.take(i as int).push(values@[i as int]));
        }
        match values[i] {
            Value::Exist(n) => {
                r.push(n);
            },
            Value::Empty => {},
        }
        i = i + 1;
    }
    assert(values@.take(values.len() as int) =~= values@);
    r
}

/// Counts the readings of a column.
pub fn present_count(values: &Vec<Value>) -> (count: usize)
    ensures
        count == present(values@).len(),
{
    let mut count: usize = 0;
    let mut i: usize = 0;
    assert(values@.take(0) =~= Seq::<Value>::empty());
    while i < values.len()
        invariant
            i <= values.len(),
            count <= i,
            count == present(values@.take(i as int)).len(),
        decreases values.len() - i,
    {
        proof {
            lemma_present_push(values@.take(i as int), values@[i as int]);
            assert(values@.take(i + 1) =~= values@.take(i as int).push(values@[i as int]));
        }
        match values[i] {
            Value::Exist(_) => {
                count = count + 1;
            },
            Value::Empty => {},
        }
        i = i + 1;
    }
    assert(values@.take(values.len() as int) =~= values@);
    count
}

/// The least and the greatest reading of a column, in one pass from the
/// left with the numeric `<`: of equal readings the first is kept, and a
/// not-a-number pattern is kept only where it comes first.
pub fn min_max(values: &Vec<Value>) -> (r: (Option<Number>, Option<Number>))
    ensures
        r == min_max_of(values@),
{
    let s = present_values(values);
    if s.len() == 0 {
        return (None, None);
    }
    let mut lo: Number = s[0];
    let mut hi: Number = s[0];
    let mut i: usize = 1;
    assert(s@.take(1).len() == 1);
    while i < s.len()
        invariant
            1 <= i <= s.len(),
            lo == least(s@.take(i as int)),
            hi == greatest(s@.take(i as int)),
        decreases s.len() - i,
    {
        let current: Number = s[i];
        proof {
            assert(s@.take(i + 1).drop_last() =~= s@.take(i as int));
        }
        if current.lt(&lo) {
            lo = current;
        }
        if hi.lt(&current) {
            hi = current;
        }
        i = i + 1;
    }
    assert(s@.take(s.len() as int) =~= s@);
    (Some(lo), Some(hi))
}

/// Computes `position`.
fn within(index: usize, len: usize) -> (r: usize)
    requires
        len > 0,
    ensures
        r == position(index as int, len as int),
        r < len,
{
    if index < len {
        index
    } else {
        len - 1
    }
}

/// The three quartiles of a column, by nearest rank: the readings are sorted
/// by the order of their encodings, which on numbers is the numeric order and
/// puts not-a-number patterns at the two ends, and the readings at the three
/// positions are taken as they are. With fewer than four readings a position
/// points past the last one, and the last sorted reading is taken.
pub fn quantiles(values: &Vec<Value>) -> (r: (Number, Number, Number))
    ensures
        r == quantiles_of(values@),
{
    let s = present_values(values);
    let len: usize = s.len();
    if len == 0 {
        return (Number::nan(), Number::nan(), Number::nan());
    }
    let sorted = sort(&s);
    proof {
        let leq = encoding_order();
        lemma_encoding_order_total();
        s@.lemma_sort_by_ensures(leq);
        assert(sorted_by(sorted@, leq)) by {
            assert forall|i: int, j: int| 0 <= i < j < sorted@.len() implies #[trigger] leq(
                sorted@[i],
                sorted@[j],
            ) by {
                assert(sorted@[i].comes_before(sorted@[j]));
            }
        }
        lemma_sorted_unique(sorted@, s@.sort_by(leq), leq);
    }
    let quart: usize = within(len / 4 + (if len % 4 == 3 { 1 } else { 0 }), len);
    let median: usize = within(len / 2 + len % 2, len);
    let last_quart: usize = within(len - len / 4, len);
    (sorted[quart], sorted[median], sorted[last_quart])
}

} // verus!
