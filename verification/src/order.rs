//! Sorting by an order that the element type brings with it.

use vstd::prelude::*;
use vstd::multiset::Multiset;
use vstd::seq_lib::*;

verus! {

/// A type whose values stand in a total preorder.
pub trait Ranked: Copy {
    /// `self` may stand before `other` in an ascending sequence.
    spec fn comes_before(self, other: Self) -> bool;

    /// Any two values can be put in order.
    proof fn lemma_connected(a: Self, b: Self)
        ensures
            a.comes_before(b) || b.comes_before(a),
    ;

    /// The order has no cycles.
    proof fn lemma_transitive(a: Self, b: Self, c: Self)
        requires
            a.comes_before(b),
            b.comes_before(c),
        ensures
            a.comes_before(c),
    ;

    /// Decides `comes_before`.
    fn no_later_than(&self, other: &Self) -> (b: bool)
        ensures
            b == self.comes_before(*other),
    ;
}

/// Every element may stand before all that follow it.
pub open spec fn ascending<T: Ranked>(s: Seq<T>) -> bool {
    forall|i: int, j: int|
        0 <= i < j < s.len() ==> (#[trigger] s[i]).comes_before(#[trigger] s[j])
}

/// Everything in `s` may stand before `t[from..]`.
spec fn all_before<T: Ranked>(s: Seq<T>, t: Seq<T>, from: int) -> bool {
    forall|k: int, x: int|
        0 <= k < s.len() && from <= x < t.len() ==> (#[trigger] s[k]).comes_before(
            #[trigger] t[x],
        )
}

proof fn lemma_take_push<T>(s: Seq<T>, i: int)
    requires
        0 <= i < s.len(),
    ensures
        s.take(i + 1) == s.take(i).push(s[i]),
        s.take(i + 1).to_multiset() == s.take(i).to_multiset().insert(s[i]),
{
    broadcast use group_to_multiset_ensures;

    assert(s.take(i + 1) =~= s.take(i).push(s[i]));
}

proof fn lemma_insert_into_sum<T>(a: Multiset<T>, b: Multiset<T>, x: T)
    ensures
        a.add(b).insert(x) == a.insert(x).add(b),
        a.add(b).insert(x) == a.add(b.insert(x)),
{
    broadcast use vstd::multiset::group_multiset_axioms;

    assert(a.add(b).insert(x) =~= a.insert(x).add(b));
    assert(a.add(b).insert(x) =~= a.add(b.insert(x)));
}

/// Appending `x` keeps `s` ascending and before `t[from..]`, given that `x`
/// may follow all of `s` and may stand before `t[from]`.
proof fn lemma_push_keeps_order<T: Ranked>(s: Seq<T>, x: T, t: Seq<T>, from: int)
    requires
        ascending(t),
        0 <= from <= t.len(),
        all_before(s, t, from),
        from < t.len() ==> x.comes_before(t[from]),
    ensures
        all_before(s.push(x), t, from),
{
    let p = s.push(x);
    assert forall|k: int, y: int| 0 <= k < p.len() && from <= y < t.len() implies (#[trigger] p[k]).comes_before(
        #[trigger] t[y],
    ) by {
        if k == s.len() {
            if y > from {
                assert(t[from].comes_before(t[y]));
                T::lemma_transitive(x, t[from], t[y]);
            }
        } else {
            assert(s[k].comes_before(t[y]));
        }
    }
}

/// Appending `t[from]` to `s` keeps `s` ascending and before `t[from + 1..]`.
proof fn lemma_push_next<T: Ranked>(s: Seq<T>, t: Seq<T>, from: int)
    requires
        ascending(s),
        ascending(t),
        0 <= from < t.len(),
        all_before(s, t, from),
    ensures
        ascending(s.push(t[from])),
        all_before(s.push(t[from]), t, from + 1),
{
    let x = t[from];
    let p = s.push(x);
    assert forall|k: int, l: int| 0 <= k < l < p.len() implies (#[trigger] p[k]).comes_before(
        #[trigger] p[l],
    ) by {
        if l == s.len() {
            assert(s[k].comes_before(t[from]));
        } else {
            assert(s[k].comes_before(s[l]));
        }
    }
    assert forall|k: int, y: int| 0 <= k < p.len() && from + 1 <= y < t.len() implies (#[trigger] p[k]).comes_before(
        #[trigger] t[y],
    ) by {
        if k == s.len() {
            assert(t[from].comes_before(t[y]));
        } else {
            assert(s[k].comes_before(t[y]));
        }
    }
}

/// Interleaves two ascending sequences into one.
fn merge<T: Ranked>(a: &Vec<T>, b: &Vec<T>) -> (r: Vec<T>)
    requires
        ascending(a@),
        ascending(b@),
        a.len() + b.len() <= usize::MAX,
    ensures
        ascending(r@),
        r@.to_multiset() == a@.to_multiset().add(b@.to_multiset()),
        r.len() == a.len() + b.len(),
{
    broadcast use {group_to_multiset_ensures, vstd::multiset::group_multiset_axioms};

    let mut r: Vec<T> = Vec::new();
    let mut i: usize = 0;
    let mut j: usize = 0;
    assert(a@.take(0) =~= Seq::<T>::empty());
    assert(b@.take(0) =~= Seq::<T>::empty());
    while i < a.len() || j < b.len()
        invariant
            i <= a.len(),
            j <= b.len(),
            a.len() + b.len() <= usize::MAX,
            r.len() == i + j,
            ascending(a@),
            ascending(b@),
            ascending(r@),
            all_before(r@, a@, i as int),
            all_before(r@, b@, j as int),
            r@.to_multiset() =~= a@.take(i as int).to_multiset().add(
                b@.take(j as int).to_multiset(),
            ),
        decreases a.len() - i + (b.len() - j),
    {
        let from_a: bool = if i >= a.len() {
            false
        } else if j >= b.len() {
            true
        } else {
            a[i].no_later_than(&b[j])
        };
        if from_a {
            let x: T = a[i];
            proof {
                lemma_take_push(a@, i as int);
                to_multiset_build(r@, x);
                lemma_insert_into_sum(
                    a@.take(i as int).to_multiset(),
                    b@.take(j as int).to_multiset(),
                    x,
                );
                lemma_push_keeps_order(r@, x, b@, j as int);
                lemma_push_next(r@, a@, i as int);
            }
            r.push(x);
            i = i + 1;
        } else {
            let x: T = b[j];
            proof {
                lemma_take_push(b@, j as int);
                to_multiset_build(r@, x);
                lemma_insert_into_sum(
                    a@.take(i as int).to_multiset(),
                    b@.take(j as int).to_multiset(),
                    x,
                );
                if i < a.len() {
                    T::lemma_connected(a@[i as int], x);
                }
                lemma_push_keeps_order(r@, x, a@, i as int);
                lemma_push_next(r@, b@, j as int);
            }
            r.push(x);
            j = j + 1;
        }
    }
    assert(a@.take(a.len() as int) =~= a@);
    assert(b@.take(b.len() as int) =~= b@);
    r
}

/// Copies `v[from..to]`.
fn slice_of<T: Ranked>(v: &Vec<T>, from: usize, to: usize) -> (r: Vec<T>)
    requires
        from <= to <= v.len(),
    ensures
        r@ == v@.subrange(from as int, to as int),
{
    let mut r: Vec<T> = Vec::new();
    let mut i: usize = from;
    while i < to
        invariant
            from <= i <= to <= v.len(),
            r@ == v@.subrange(from as int, i as int),
        decreases to - i,
    {
        let x: T = v[i];
        r.push(x);
        i = i + 1;
        assert(r@ =~= v@.subrange(from as int, i as int));
    }
    r
}

/// Sorts by merging: the result holds the elements of `v`, each as often as
/// `v` does, in ascending order.
pub fn sort<T: Ranked>(v: &Vec<T>) -> (r: Vec<T>)
    ensures
        ascending(r@),
        r@.to_multiset() == v@.to_multiset(),
        r.len() == v.len(),
    decreases v.len(),
{
    let n: usize = v.len();
    if n <= 1 {
        let r = slice_of(v, 0, n);
        assert(r@ =~= v@);
        return r;
    }
    let mid: usize = n / 2;
    let left = slice_of(v, 0, mid);
    let right = slice_of(v, mid, n);
    proof {
        assert(v@ =~= left@ + right@);
        lemma_multiset_commutative(left@, right@);
    }
    let sorted_left = sort(&left);
    let sorted_right = sort(&right);
    merge(&sorted_left, &sorted_right)
}

} // verus!
