//! Sorting row numbers by an order on the rows, and lists in order.

use vstd::prelude::*;
use vstd::relations::*;
use vstd::seq_lib::*;

use crate::keys;

verus! {

/// A total order on row numbers.
pub trait Order {
    /// Whether row `a` comes no later than row `b`.
    spec fn leq(&self, a: int, b: int) -> bool;

    /// Whether there is a row with this number.
    spec fn has(&self, row: int) -> bool;

    /// The order is total.
    proof fn lemma_total(&self)
        ensures
            total_ordering(|a: int, b: int| self.leq(a, b)),
    ;

    /// Whether row `a` comes no later than row `b`.
    fn not_after(&self, a: usize, b: usize) -> (r: bool)
        requires
            self.has(a as int),
            self.has(b as int),
        ensures
            r == self.leq(a as int, b as int),
    ;
}

/// Whether every number in `rows` is that of a row.
pub open spec fn all_rows<O: Order>(order: &O, rows: Seq<usize>) -> bool {
    forall|i: int| 0 <= i < rows.len() ==> order.has(#[trigger] rows[i] as int)
}

/// `rows` in ascending order.
pub fn sorted<O: Order>(order: &O, rows: &Vec<usize>) -> (r: Vec<usize>)
    requires
        all_rows(order, rows@),
    ensures
        keys::ints(r@) == keys::ints(rows@).sort_by(|a: int, b: int| order.leq(a, b)),
{
    let ghost leq = |a: int, b: int| order.leq(a, b);
    let r: Vec<usize> = sorted_range(order, rows, 0, rows.len());
    proof {
        order.lemma_total();
        assert(rows@.subrange(0, rows@.len() as int) =~= rows@);
        keys::ints(rows@).lemma_sort_by_ensures(leq);
        lemma_sorted_unique(keys::ints(r@), keys::ints(rows@).sort_by(leq), leq);
    }
    r
}

/// The rows from `from` up to `to`, in ascending order.
fn sorted_range<O: Order>(order: &O, rows: &Vec<usize>, from: usize, to: usize) -> (r: Vec<usize>)
    requires
        from <= to <= rows@.len(),
        all_rows(order, rows@),
    ensures
        sorted_by(keys::ints(r@), |a: int, b: int| order.leq(a, b)),
        keys::ints(r@).to_multiset() == keys::ints(
            rows@.subrange(from as int, to as int),
        ).to_multiset(),
        all_rows(order, r@),
    decreases to - from,
{
    let ghost part = rows@.subrange(from as int, to as int);
    if to - from <= 1 {
        let mut r: Vec<usize> = Vec::new();
        if from < to {
            r.push(rows[from]);
        }
        assert(r@ =~= part);
        return r;
    }
    let middle: usize = from + (to - from) / 2;
    let left: Vec<usize> = sorted_range(order, rows, from, middle);
    let right: Vec<usize> = sorted_range(order, rows, middle, to);
    let r: Vec<usize> = merged(order, &left, &right);
    proof {
        let a = rows@.subrange(from as int, middle as int);
        let b = rows@.subrange(middle as int, to as int);
        assert(keys::ints(part) =~= keys::ints(a) + keys::ints(b));
        lemma_multiset_commutative(keys::ints(a), keys::ints(b));
    }
    r
}

/// Two ascending lists merged into one.
fn merged<O: Order>(order: &O, left: &Vec<usize>, right: &Vec<usize>) -> (r: Vec<usize>)
    requires
        sorted_by(keys::ints(left@), |a: int, b: int| order.leq(a, b)),
        sorted_by(keys::ints(right@), |a: int, b: int| order.leq(a, b)),
        all_rows(order, left@),
        all_rows(order, right@),
    ensures
        sorted_by(keys::ints(r@), |a: int, b: int| order.leq(a, b)),
        keys::ints(r@).to_multiset() == keys::ints(left@).to_multiset().add(
            keys::ints(right@).to_multiset(),
        ),
        all_rows(order, r@),
{
    let ghost leq = |a: int, b: int| order.leq(a, b);
    let ghost a = keys::ints(left@);
    let ghost b = keys::ints(right@);
    let mut r: Vec<usize> = Vec::new();
    let mut i: usize = 0;
    let mut j: usize = 0;
    proof {
        broadcast use group_to_multiset_ensures;

        assert(a.take(0) =~= Seq::<int>::empty());
        assert(b.take(0) =~= Seq::<int>::empty());
        assert(keys::ints(r@) =~= Seq::<int>::empty());
        assert(Seq::<int>::empty().to_multiset() =~= Seq::<int>::empty().to_multiset().add(
            Seq::<int>::empty().to_multiset(),
        ));
    }
    while i < left.len() || j < right.len()
        invariant
            leq == (|a: int, b: int| order.leq(a, b)),
            a == keys::ints(left@),
            b == keys::ints(right@),
            sorted_by(a, leq),
            sorted_by(b, leq),
            all_rows(order, left@),
            all_rows(order, right@),
            all_rows(order, r@),
            i <= left@.len(),
            j <= right@.len(),
            sorted_by(keys::ints(r@), leq),
            forall|k: int, p: int|
                0 <= k < r@.len() && i <= p < a.len() ==> leq(#[trigger] r@[k] as int, #[trigger] a[p]),
            forall|k: int, p: int|
                0 <= k < r@.len() && j <= p < b.len() ==> leq(#[trigger] r@[k] as int, #[trigger] b[p]),
            keys::ints(r@).to_multiset() == a.take(i as int).to_multiset().add(
                b.take(j as int).to_multiset(),
            ),
        decreases left@.len() - i + (right@.len() - j),
    {
        let from_left: bool = if i == left.len() {
            false
        } else if j == right.len() {
            true
        } else {
            order.not_after(left[i], right[j])
        };
        let ghost before = r@;
        let row: usize = if from_left {
            left[i]
        } else {
            right[j]
        };
        r.push(row);
        proof {
            broadcast use group_to_multiset_ensures;

            order.lemma_total();
            assert(keys::ints(r@) =~= keys::ints(before).push(row as int));
            assert forall|k: int, l: int| 0 <= k < l < keys::ints(r@).len() implies #[trigger] leq(
                keys::ints(r@)[k],
                keys::ints(r@)[l],
            ) by {
                if l < before.len() {
                    assert(leq(keys::ints(before)[k], keys::ints(before)[l]));
                } else {
                    assert(before[k] as int == keys::ints(r@)[k]);
                    if from_left {
                        assert(leq(before[k] as int, a[i as int]));
                    } else {
                        assert(leq(before[k] as int, b[j as int]));
                    }
                }
            }
            if from_left {
                assert(row as int == a[i as int]);
                assert(a.take(i + 1) =~= a.take(i as int).push(a[i as int]));
                assert(a.take(i + 1).to_multiset().add(b.take(j as int).to_multiset()) =~= a.take(
                    i as int,
                ).to_multiset().add(b.take(j as int).to_multiset()).insert(row as int));
                assert forall|p: int| i < p < a.len() implies leq(row as int, #[trigger] a[p]) by {
                    assert(leq(a[i as int], a[p]));
                }
                assert forall|p: int| j <= p < b.len() implies leq(row as int, #[trigger] b[p]) by {
                    assert(leq(row as int, b[j as int]));
                    if p > j {
                        assert(leq(b[j as int], b[p]));
                    }
                }
            } else {
                assert(row as int == b[j as int]);
                assert(b.take(j + 1) =~= b.take(j as int).push(b[j as int]));
                assert(a.take(i as int).to_multiset().add(b.take(j + 1).to_multiset()) =~= a.take(
                    i as int,
                ).to_multiset().add(b.take(j as int).to_multiset()).insert(row as int));
                assert forall|p: int| j < p < b.len() implies leq(row as int, #[trigger] b[p]) by {
                    assert(leq(b[j as int], b[p]));
                }
                assert forall|p: int| i <= p < a.len() implies leq(row as int, #[trigger] a[p]) by {
                    assert(leq(row as int, a[i as int]) || leq(a[i as int], row as int));
                    if p > i {
                        assert(leq(a[i as int], a[p]));
                    }
                }
            }
        }
        if from_left {
            i = i + 1;
        } else {
            j = j + 1;
        }
    }
    assert(a.take(a.len() as int) =~= a);
    assert(b.take(b.len() as int) =~= b);
    r
}

/// Two lists with the same elements, each in strict order, are the same list.
pub proof fn lemma_ascending_unique<A>(a: Seq<A>, b: Seq<A>, lt: spec_fn(A, A) -> bool)
    requires
        forall|x: A, y: A| #[trigger] lt(x, y) ==> !lt(y, x),
        forall|i: int, j: int| 0 <= i < j < a.len() ==> lt(#[trigger] a[i], #[trigger] a[j]),
        forall|i: int, j: int| 0 <= i < j < b.len() ==> lt(#[trigger] b[i], #[trigger] b[j]),
        forall|x: A| #[trigger] a.contains(x) <==> b.contains(x),
    ensures
        a == b,
    decreases a.len(),
{
    if a.len() == 0 {
        if b.len() > 0 {
            assert(b.contains(b[0]));
            assert(a.contains(b[0]));
        }
        assert(a =~= b);
    } else {
        assert(a.contains(a.last()));
        assert(b.contains(a.last()));
        assert(b.contains(b.last()));
        assert(a.contains(b.last()));
        let i = choose|i: int| 0 <= i < a.len() && a[i] == b.last();
        let j = choose|j: int| 0 <= j < b.len() && b[j] == a.last();
        if i < a.len() - 1 && j < b.len() - 1 {
            assert(lt(a[i], a[a.len() - 1]));
            assert(lt(b[j], b[b.len() - 1]));
        }
        assert(a.last() == b.last());
        let a2 = a.drop_last();
        let b2 = b.drop_last();
        assert forall|x: A| #[trigger] a2.contains(x) <==> b2.contains(x) by {
            if a2.contains(x) {
                let k = choose|k: int| 0 <= k < a2.len() && a2[k] == x;
                assert(a[k] == x);
                assert(lt(a[k], a[a.len() - 1]));
                assert(a.contains(x));
                assert(b.contains(x));
                let l = choose|l: int| 0 <= l < b.len() && b[l] == x;
                assert(b2[l] == x);
            }
            if b2.contains(x) {
                let k = choose|k: int| 0 <= k < b2.len() && b2[k] == x;
                assert(b[k] == x);
                assert(lt(b[k], b[b.len() - 1]));
                assert(b.contains(x));
                assert(a.contains(x));
                let l = choose|l: int| 0 <= l < a.len() && a[l] == x;
                assert(a2[l] == x);
            }
        }
        lemma_ascending_unique(a2, b2, lt);
        assert(a =~= a2.push(a.last()));
        assert(b =~= b2.push(b.last()));
    }
}

} // verus!
