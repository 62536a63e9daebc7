//! A stable sort, stated by what inserting one item after the other gives.

use vstd::prelude::*;

verus! {

/// `items` with `x` put behind the last item that may stand before it; every
/// item behind that one moves on by one place.
pub open spec fn placed<T>(items: Seq<T>, x: T, le: spec_fn(T, T) -> bool) -> Seq<T>
    decreases items.len(),
{
    if items.len() == 0 || le(items.last(), x) {
        items.push(x)
    } else {
        placed(items.drop_last(), x, le).push(items.last())
    }
}

/// The stable sort of `items`: each item put in its place among those that
/// came before it, behind its equals.
pub open spec fn stably_sorted<T>(items: Seq<T>, le: spec_fn(T, T) -> bool) -> Seq<T>
    decreases items.len(),
{
    if items.len() == 0 {
        items
    } else {
        placed(stably_sorted(items.drop_last(), le), items.last(), le)
    }
}

/// Whether `le` compares any two items and is transitive.
pub open spec fn is_preorder<T>(le: spec_fn(T, T) -> bool) -> bool {
    &&& forall|a: T, b: T| #[trigger] le(a, b) || le(b, a)
    &&& forall|a: T, b: T, c: T| #[trigger] le(a, b) && #[trigger] le(b, c) ==> le(a, c)
}

/// Two sequences merged from their ends; of two equal items, that of `a`
/// comes first.
spec fn merged<T>(a: Seq<T>, b: Seq<T>, le: spec_fn(T, T) -> bool) -> Seq<T>
    decreases a.len() + b.len(),
{
    if a.len() == 0 {
        b
    } else if b.len() == 0 {
        a
    } else if le(a.last(), b.last()) {
        merged(a, b.drop_last(), le).push(b.last())
    } else {
        merged(a.drop_last(), b, le).push(a.last())
    }
}

/// Placing an item in the second of two sequences and merging is merging and
/// placing the item in the result.
proof fn lemma_merged_placed<T>(a: Seq<T>, b: Seq<T>, x: T, le: spec_fn(T, T) -> bool)
    requires
        is_preorder(le),
    ensures
        merged(a, placed(b, x, le), le) == placed(merged(a, b, le), x, le),
    decreases a.len() + b.len(),
{
    let p = placed(b, x, le);
    if a.len() == 0 {
    } else if b.len() == 0 {
        assert(p.drop_last() =~= b);
        assert(merged(a, b, le) == a);
        if !le(a.last(), x) {
            lemma_merged_placed(a.drop_last(), b, x, le);
            assert(merged(a.drop_last(), b, le) =~= a.drop_last());
        }
    } else {
        let m = merged(a, b, le);
        assert(le(a.last(), b.last()) || le(b.last(), a.last()));
        if le(b.last(), x) {
            assert(p.drop_last() =~= b);
            if le(a.last(), x) {
                assert(le(m.last(), x));
            } else {
                assert(!le(a.last(), b.last()));
                lemma_merged_placed(a.drop_last(), b, x, le);
                assert(m.drop_last() =~= merged(a.drop_last(), b, le));
            }
        } else {
            assert(p.last() == b.last());
            assert(p.drop_last() =~= placed(b.drop_last(), x, le));
            if le(a.last(), b.last()) {
                lemma_merged_placed(a, b.drop_last(), x, le);
                assert(m.drop_last() =~= merged(a, b.drop_last(), le));
            } else {
                lemma_merged_placed(a.drop_last(), b, x, le);
                assert(m.drop_last() =~= merged(a.drop_last(), b, le));
                assert(!le(a.last(), x));
            }
        }
    }
}

/// Sorting a sequence is sorting its two parts and merging them.
proof fn lemma_sorted_in_parts<T>(a: Seq<T>, b: Seq<T>, le: spec_fn(T, T) -> bool)
    requires
        is_preorder(le),
    ensures
        stably_sorted(a + b, le) == merged(stably_sorted(a, le), stably_sorted(b, le), le),
    decreases b.len(),
{
    if b.len() == 0 {
        assert(a + b =~= a);
        assert(stably_sorted(b, le) == b);
        if a.len() == 0 {
            assert(a =~= b);
        } else {
            lemma_sorted_len(a, le);
        }
    } else {
        lemma_sorted_in_parts(a, b.drop_last(), le);
        assert((a + b).drop_last() =~= a + b.drop_last());
        lemma_merged_placed(
            stably_sorted(a, le),
            stably_sorted(b.drop_last(), le),
            b.last(),
            le,
        );
    }
}

proof fn lemma_placed_len<T>(items: Seq<T>, x: T, le: spec_fn(T, T) -> bool)
    ensures
        placed(items, x, le).len() == items.len() + 1,
    decreases items.len(),
{
    if items.len() != 0 && !le(items.last(), x) {
        lemma_placed_len(items.drop_last(), x, le);
    }
}

/// Sorting keeps the number of items.
pub proof fn lemma_sorted_len<T>(items: Seq<T>, le: spec_fn(T, T) -> bool)
    ensures
        stably_sorted(items, le).len() == items.len(),
    decreases items.len(),
{
    if items.len() != 0 {
        lemma_sorted_len(items.drop_last(), le);
        lemma_placed_len(stably_sorted(items.drop_last(), le), items.last(), le);
    }
}

proof fn lemma_placed_multiset<T>(items: Seq<T>, x: T, le: spec_fn(T, T) -> bool)
    ensures
        placed(items, x, le).to_multiset() == items.to_multiset().insert(x),
    decreases items.len(),
{
    broadcast use vstd::seq_lib::group_to_multiset_ensures;

    if items.len() != 0 && !le(items.last(), x) {
        lemma_placed_multiset(items.drop_last(), x, le);
        assert(items =~= items.drop_last().push(items.last()));
        assert(placed(items, x, le).to_multiset() =~= items.to_multiset().insert(x));
    }
}

/// Sorting keeps every item as often as it was there.
pub proof fn lemma_sorted_multiset<T>(items: Seq<T>, le: spec_fn(T, T) -> bool)
    ensures
        stably_sorted(items, le).to_multiset() == items.to_multiset(),
    decreases items.len(),
{
    broadcast use vstd::seq_lib::group_to_multiset_ensures;

    if items.len() != 0 {
        lemma_sorted_multiset(items.drop_last(), le);
        lemma_placed_multiset(stably_sorted(items.drop_last(), le), items.last(), le);
        assert(items =~= items.drop_last().push(items.last()));
    }
}

/// What items weigh together.
pub open spec fn weigh<T>(items: Seq<T>, weight: spec_fn(T) -> nat) -> nat
    decreases items.len(),
{
    if items.len() == 0 {
        0
    } else {
        weigh(items.drop_last(), weight) + weight(items.last())
    }
}

/// Without one item the others weigh less by it.
pub proof fn lemma_weigh_removed<T>(items: Seq<T>, i: int, weight: spec_fn(T) -> nat)
    requires
        0 <= i < items.len(),
    ensures
        weigh(items.remove(i), weight) + weight(items[i]) == weigh(items, weight),
    decreases items.len(),
{
    let rest = items.remove(i);
    if i < items.len() - 1 {
        lemma_weigh_removed(items.drop_last(), i, weight);
        assert(rest.drop_last() =~= items.drop_last().remove(i));
    } else {
        assert(rest =~= items.drop_last());
    }
}

/// With one item more the items weigh more by it.
pub proof fn lemma_weigh_pushed<T>(items: Seq<T>, x: T, weight: spec_fn(T) -> nat)
    ensures
        weigh(items.push(x), weight) == weigh(items, weight) + weight(x),
{
    assert(items.push(x).drop_last() =~= items);
}

/// With another item in the place of one the items weigh as much more as that
/// one weighs more.
pub proof fn lemma_weigh_updated<T>(items: Seq<T>, i: int, x: T, weight: spec_fn(T) -> nat)
    requires
        0 <= i < items.len(),
    ensures
        weigh(items.update(i, x), weight) + weight(items[i]) == weigh(items, weight) + weight(x),
    decreases items.len(),
{
    let changed = items.update(i, x);
    if i < items.len() - 1 {
        lemma_weigh_updated(items.drop_last(), i, x, weight);
        assert(changed.drop_last() =~= items.drop_last().update(i, x));
    } else {
        assert(changed.drop_last() =~= items.drop_last());
    }
}

/// What items weigh together does not depend on their order.
pub proof fn lemma_weigh_rearranged<T>(a: Seq<T>, b: Seq<T>, weight: spec_fn(T) -> nat)
    requires
        a.to_multiset() == b.to_multiset(),
    ensures
        a.len() == b.len(),
        weigh(a, weight) == weigh(b, weight),
    decreases a.len(),
{
    broadcast use vstd::seq_lib::group_to_multiset_ensures;

    vstd::seq_lib::to_multiset_len(a);
    vstd::seq_lib::to_multiset_len(b);
    if a.len() > 0 {
        let last = a.len() - 1;
        assert(a.contains(a[last]));
        assert(a.to_multiset().count(a[last]) > 0);
        assert(b.contains(a[last]));
        let j = choose|j: int| 0 <= j < b.len() && b[j] == a[last];
        assert(a.remove(last) =~= a.drop_last());
        assert(a.remove(last).to_multiset() == a.to_multiset().remove(a[last]));
        assert(b.remove(j).to_multiset() == b.to_multiset().remove(b[j]));
        lemma_weigh_rearranged(a.drop_last(), b.remove(j), weight);
        lemma_weigh_removed(b, j, weight);
    }
}

/// Sorting keeps what the items weigh together.
pub proof fn lemma_sorted_weight<T>(
    items: Seq<T>,
    le: spec_fn(T, T) -> bool,
    weight: spec_fn(T) -> nat,
)
    ensures
        weigh(stably_sorted(items, le), weight) == weigh(items, weight),
{
    lemma_sorted_multiset(items, le);
    lemma_weigh_rearranged(stably_sorted(items, le), items, weight);
}

/// What the sort returns was among what it was given.
pub proof fn lemma_sorted_contains<T>(items: Seq<T>, le: spec_fn(T, T) -> bool, i: int)
    requires
        0 <= i < items.len(),
    ensures
        items.contains(stably_sorted(items, le)[i]),
{
    broadcast use vstd::seq_lib::group_to_multiset_ensures;

    lemma_sorted_len(items, le);
    lemma_sorted_multiset(items, le);
    let s = stably_sorted(items, le);
    assert(s.contains(s[i]));
    assert(s.to_multiset().count(s[i]) > 0);
}

/// What the sort was given is among what it returns.
pub proof fn lemma_sorted_holds<T>(items: Seq<T>, le: spec_fn(T, T) -> bool, i: int)
    requires
        0 <= i < items.len(),
    ensures
        stably_sorted(items, le).contains(items[i]),
{
    broadcast use vstd::seq_lib::group_to_multiset_ensures;

    lemma_sorted_multiset(items, le);
    assert(items.contains(items[i]));
    assert(items.to_multiset().count(items[i]) > 0);
}

/// Where nothing occurs twice the sort returns nothing twice.
pub proof fn lemma_sorted_distinct<T>(items: Seq<T>, le: spec_fn(T, T) -> bool)
    requires
        items.no_duplicates(),
    ensures
        stably_sorted(items, le).no_duplicates(),
{
    lemma_sorted_multiset(items, le);
    items.lemma_multiset_has_no_duplicates();
    stably_sorted(items, le).lemma_multiset_has_no_duplicates_conv();
}

proof fn lemma_placed_in_order<T>(items: Seq<T>, x: T, le: spec_fn(T, T) -> bool)
    requires
        is_preorder(le),
        forall|i: int, j: int| 0 <= i < j < items.len() ==> le(#[trigger] items[i], #[trigger] items[j]),
    ensures
        forall|i: int, j: int|
            0 <= i < j < placed(items, x, le).len() ==> le(
                #[trigger] placed(items, x, le)[i],
                #[trigger] placed(items, x, le)[j],
            ),
        forall|i: int|
            0 <= i < placed(items, x, le).len() ==> (#[trigger] placed(items, x, le)[i] == x
                || items.contains(placed(items, x, le)[i])),
    decreases items.len(),
{
    let p = placed(items, x, le);
    if items.len() == 0 {
    } else if le(items.last(), x) {
        assert forall|i: int, j: int| 0 <= i < j < p.len() implies le(
            #[trigger] p[i],
            #[trigger] p[j],
        ) by {
            if j == items.len() && i < items.len() - 1 {
                assert(le(items[i], items[items.len() - 1]));
            }
        }
    } else {
        let rest = items.drop_last();
        lemma_placed_in_order(rest, x, le);
        lemma_placed_len(rest, x, le);
        let q = placed(rest, x, le);
        assert(le(items.last(), x) || le(x, items.last()));
        assert forall|i: int| 0 <= i < p.len() implies #[trigger] p[i] == x || items.contains(p[i]) by {
            if i < q.len() {
                assert(q[i] == x || rest.contains(q[i]));
                if rest.contains(q[i]) {
                    let k = choose|k: int| 0 <= k < rest.len() && rest[k] == q[i];
                    assert(items[k] == q[i]);
                }
            } else {
                assert(items[items.len() - 1] == p[i]);
            }
        }
        assert forall|i: int, j: int| 0 <= i < j < p.len() implies le(
            #[trigger] p[i],
            #[trigger] p[j],
        ) by {
            if j == q.len() {
                assert(q[i] == x || rest.contains(q[i]));
                if q[i] != x {
                    let k = choose|k: int| 0 <= k < rest.len() && rest[k] == q[i];
                    assert(le(items[k], items[items.len() - 1]));
                }
            } else {
                assert(le(q[i], q[j]));
            }
        }
    }
}

/// What the sort returns is in order.
pub proof fn lemma_sorted_in_order<T>(items: Seq<T>, le: spec_fn(T, T) -> bool)
    requires
        is_preorder(le),
    ensures
        forall|i: int, j: int|
            0 <= i < j < items.len() ==> le(
                #[trigger] stably_sorted(items, le)[i],
                #[trigger] stably_sorted(items, le)[j],
            ),
    decreases items.len(),
{
    lemma_sorted_len(items, le);
    if items.len() != 0 {
        lemma_sorted_in_order(items.drop_last(), le);
        lemma_sorted_len(items.drop_last(), le);
        lemma_placed_in_order(stably_sorted(items.drop_last(), le), items.last(), le);
    }
}

/// A sequence that is in order already comes back as it is.
pub proof fn lemma_sorted_fixed<T>(items: Seq<T>, le: spec_fn(T, T) -> bool)
    requires
        forall|i: int, j: int| 0 <= i < j < items.len() ==> le(#[trigger] items[i], #[trigger] items[j]),
    ensures
        stably_sorted(items, le) == items,
    decreases items.len(),
{
    if items.len() != 0 {
        let rest = items.drop_last();
        assert forall|i: int, j: int| 0 <= i < j < rest.len() implies le(
            #[trigger] rest[i],
            #[trigger] rest[j],
        ) by {
            assert(le(items[i], items[j]));
        }
        lemma_sorted_fixed(rest, le);
        if rest.len() != 0 {
            assert(le(items[items.len() - 2], items[items.len() - 1]));
        }
        assert(rest.push(items.last()) =~= items);
    }
}

/// Whether an item is a peer of `x`: each may stand before the other.
pub open spec fn peers_of<T>(x: T, le: spec_fn(T, T) -> bool) -> spec_fn(T) -> bool {
    |y: T| le(x, y) && le(y, x)
}

proof fn lemma_filter_push<T>(items: Seq<T>, x: T, pred: spec_fn(T) -> bool)
    ensures
        items.push(x).filter(pred) == if pred(x) {
            items.filter(pred).push(x)
        } else {
            items.filter(pred)
        },
{
    reveal(Seq::filter);
    assert(items.push(x).drop_last() =~= items);
}

proof fn lemma_placed_stable<T>(items: Seq<T>, y: T, x: T, le: spec_fn(T, T) -> bool)
    requires
        is_preorder(le),
    ensures
        placed(items, y, le).filter(peers_of(x, le)) == items.push(y).filter(peers_of(x, le)),
    decreases items.len(),
{
    if items.len() != 0 && !le(items.last(), y) {
        let peers = peers_of(x, le);
        let rest = items.drop_last();
        let last = items.last();
        lemma_placed_stable(rest, y, x, le);
        lemma_filter_push(placed(rest, y, le), last, peers);
        lemma_filter_push(rest, y, peers);
        lemma_filter_push(rest, last, peers);
        lemma_filter_push(items, y, peers);
        assert(items =~= rest.push(last));
        if peers(last) && peers(y) {
            assert(le(last, x) && le(x, y));
        }
    }
}

/// The sort keeps all items, brings them in order, and leaves those that the
/// order does not tell apart in the order in which they came.
pub proof fn sorting_is_stable<T>(items: Seq<T>, le: spec_fn(T, T) -> bool)
    requires
        is_preorder(le),
    ensures
        stably_sorted(items, le).to_multiset() == items.to_multiset(),
        forall|i: int, j: int|
            0 <= i < j < items.len() ==> le(
                #[trigger] stably_sorted(items, le)[i],
                #[trigger] stably_sorted(items, le)[j],
            ),
        forall|x: T| #[trigger]
            stably_sorted(items, le).filter(peers_of(x, le)) == items.filter(peers_of(x, le)),
    decreases items.len(),
{
    lemma_sorted_multiset(items, le);
    lemma_sorted_in_order(items, le);
    if items.len() != 0 {
        let rest = items.drop_last();
        sorting_is_stable(rest, le);
        assert(items =~= rest.push(items.last()));
        assert forall|x: T| #[trigger]
            stably_sorted(items, le).filter(peers_of(x, le)) == items.filter(peers_of(x, le)) by {
            lemma_placed_stable(stably_sorted(rest, le), items.last(), x, le);
            lemma_filter_push(stably_sorted(rest, le), items.last(), peers_of(x, le));
            lemma_filter_push(rest, items.last(), peers_of(x, le));
            assert(stably_sorted(rest, le).filter(peers_of(x, le)) == rest.filter(
                peers_of(x, le),
            ));
        }
    }
}

proof fn lemma_placed_mapped<T, U>(
    items: Seq<T>,
    x: T,
    f: spec_fn(T) -> U,
    le: spec_fn(T, T) -> bool,
    le2: spec_fn(U, U) -> bool,
)
    requires
        forall|a: T, b: T| #[trigger] le(a, b) == le2(f(a), f(b)),
    ensures
        placed(items, x, le).map_values(f) == placed(items.map_values(f), f(x), le2),
    decreases items.len(),
{
    let m = items.map_values(f);
    if items.len() != 0 {
        assert(le(items.last(), x) == le2(f(items.last()), f(x)));
        assert(m.last() == f(items.last()));
    }
    if items.len() == 0 || le(items.last(), x) {
        assert(items.push(x).map_values(f) =~= m.push(f(x)));
    } else {
        lemma_placed_mapped(items.drop_last(), x, f, le, le2);
        assert(m.drop_last() =~= items.drop_last().map_values(f));
        assert(placed(items, x, le).map_values(f) =~= placed(items.drop_last(), x, le).map_values(f)
            .push(f(items.last())));
    }
}

/// Sorting commutes with a map that keeps the order.
pub proof fn lemma_sorted_mapped<T, U>(
    items: Seq<T>,
    f: spec_fn(T) -> U,
    le: spec_fn(T, T) -> bool,
    le2: spec_fn(U, U) -> bool,
)
    requires
        forall|a: T, b: T| #[trigger] le(a, b) == le2(f(a), f(b)),
    ensures
        stably_sorted(items, le).map_values(f) == stably_sorted(items.map_values(f), le2),
    decreases items.len(),
{
    let m = items.map_values(f);
    if items.len() == 0 {
        assert(items.map_values(f) =~= m);
    } else {
        lemma_sorted_mapped(items.drop_last(), f, le, le2);
        assert(m.drop_last() =~= items.drop_last().map_values(f));
        lemma_placed_mapped(stably_sorted(items.drop_last(), le), items.last(), f, le, le2);
    }
}

/// An order on items that can be computed.
pub trait Precedence<T>: Sized {
    /// Whether the first item may stand before the second.
    spec fn le(&self) -> spec_fn(T, T) -> bool;

    /// The order compares any two items and is transitive.
    proof fn preorder(&self)
        ensures
            is_preorder(self.le()),
    ;

    /// Whether `a` may stand before `b`.
    fn in_order(&self, a: &T, b: &T) -> (r: bool)
        ensures
            r == (self.le())(*a, *b),
    ;
}

fn merge<T, P: Precedence<T>>(a: Vec<T>, b: Vec<T>, order: &P) -> (r: Vec<T>)
    ensures
        r@ == merged(a@, b@, order.le()),
{
    let mut a = a;
    let mut b = b;
    let ghost a0 = a@;
    let ghost b0 = b@;
    let mut back: Vec<T> = Vec::with_capacity(a.len());
    assert(merged(a@, b@, order.le()) + back@.reverse() =~= merged(a0, b0, order.le()));
    while a.len() > 0 && b.len() > 0
        invariant
            merged(a@, b@, order.le()) + back@.reverse() == merged(a0, b0, order.le()),
        decreases a.len() + b.len(),
    {
        let ghost m = merged(a@, b@, order.le());
        let ghost tail = back@.reverse();
        let a_first = order.in_order(&a[a.len() - 1], &b[b.len() - 1]);
        let taken = if a_first {
            b.pop()
        } else {
            a.pop()
        };
        if let Some(x) = taken {
            back.push(x);
            assert(back@.reverse() =~= seq![x] + tail);
            assert(m =~= merged(a@, b@, order.le()).push(x));
            assert(m + tail =~= merged(a@, b@, order.le()) + back@.reverse());
        }
    }
    let mut r = if a.len() > 0 {
        a
    } else {
        b
    };
    assert(r@ == merged(a@, b@, order.le()));
    while back.len() > 0
        invariant
            r@ + back@.reverse() == merged(a0, b0, order.le()),
        decreases back.len(),
    {
        let ghost tail = back@.reverse();
        let ghost head = r@;
        if let Some(x) = back.pop() {
            r.push(x);
            assert(tail =~= seq![x] + back@.reverse());
            assert(head + tail =~= r@ + back@.reverse());
        }
    }
    assert(r@ + back@.reverse() =~= r@);
    r
}

/// Sorts the items; equal items keep the order they were in.
pub fn stable_sort<T, P: Precedence<T>>(items: Vec<T>, order: &P) -> (r: Vec<T>)
    ensures
        r@ == stably_sorted(items@, order.le()),
    decreases items.len(),
{
    let mut items = items;
    if items.len() <= 1 {
        proof {
            if items@.len() == 1 {
                assert(items@.drop_last() =~= Seq::<T>::empty());
                assert(stably_sorted(items@.drop_last(), order.le()) == Seq::<T>::empty());
                assert(Seq::<T>::empty().push(items@.last()) =~= items@);
            }
        }
        return items;
    }
    let ghost all = items@;
    let half = items.len() / 2;
    let second = items.split_off(half);
    assert(items@ + second@ =~= all);
    proof {
        order.preorder();
        lemma_sorted_in_parts(items@, second@, order.le());
    }
    let a = stable_sort(items, order);
    let b = stable_sort(second, order);
    merge(a, b, order)
}

} // verus!
