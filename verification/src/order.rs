//! Drawing order: far to near.

use vstd::prelude::*;

use crate::bits::{order_key, total_key};

verus! {

/// Whether item `a` is drawn before item `b`: it is deeper, or it comes first among items of the
/// same depth.
pub open spec fn drawn_before(depths: Seq<u32>, a: usize, b: usize) -> bool {
    order_key(depths[a as int]) > order_key(depths[b as int]) || (order_key(depths[a as int])
        == order_key(depths[b as int]) && a < b)
}

/// Whether each item is drawn before all that follow it.
pub open spec fn in_drawing_order(depths: Seq<u32>, order: Seq<usize>) -> bool {
    forall|i: int, j: int|
        0 <= i < j < order.len() ==> drawn_before(depths, #[trigger] order[i], #[trigger] order[j])
}

/// The numbers below `n`.
pub open spec fn indices(n: nat) -> Seq<usize> {
    Seq::new(n, |i: int| i as usize)
}

/// Whether `order` is the order, far to near, of items with these depths.
pub open spec fn is_far_to_near(depths: Seq<u32>, order: Seq<usize>) -> bool {
    &&& order.to_multiset() == indices(depths.len()).to_multiset()
    &&& in_drawing_order(depths, order)
}

/// Merges two lists of items that are in drawing order.
fn merge(depths: &[u32], left: &Vec<usize>, right: &Vec<usize>) -> (merged: Vec<usize>)
    requires
        in_drawing_order(depths@, left@),
        in_drawing_order(depths@, right@),
        forall|i: int| 0 <= i < left@.len() ==> #[trigger] left@[i] < depths@.len(),
        forall|i: int| 0 <= i < right@.len() ==> #[trigger] right@[i] < depths@.len(),
        forall|i: int, j: int|
            0 <= i < left@.len() && 0 <= j < right@.len() ==> #[trigger] left@[i]
                != #[trigger] right@[j],
    ensures
        in_drawing_order(depths@, merged@),
        merged@.to_multiset() == left@.to_multiset().add(right@.to_multiset()),
        merged@.len() == left@.len() + right@.len(),
        forall|i: int| 0 <= i < merged@.len() ==> #[trigger] merged@[i] < depths@.len(),
{
    broadcast use vstd::seq_lib::group_to_multiset_ensures;

    let mut merged: Vec<usize> = Vec::new();
    let mut l: usize = 0;
    let mut r: usize = 0;
    assert(left@.take(0) =~= Seq::<usize>::empty());
    assert(right@.take(0) =~= Seq::<usize>::empty());
    assert(merged@.to_multiset() =~= left@.take(0).to_multiset().add(right@.take(0).to_multiset()));
    while l < left.len() || r < right.len()
        invariant
            l <= left@.len(),
            r <= right@.len(),
            in_drawing_order(depths@, left@),
            in_drawing_order(depths@, right@),
            forall|i: int| 0 <= i < left@.len() ==> #[trigger] left@[i] < depths@.len(),
            forall|i: int| 0 <= i < right@.len() ==> #[trigger] right@[i] < depths@.len(),
            forall|i: int, j: int|
                0 <= i < left@.len() && 0 <= j < right@.len() ==> #[trigger] left@[i]
                    != #[trigger] right@[j],
            merged@.len() == l + r,
            merged@.to_multiset() == left@.take(l as int).to_multiset().add(
                right@.take(r as int).to_multiset(),
            ),
            in_drawing_order(depths@, merged@),
            forall|i: int| 0 <= i < merged@.len() ==> #[trigger] merged@[i] < depths@.len(),
            forall|i: int, j: int|
                0 <= i < merged@.len() && l <= j < left@.len() ==> drawn_before(
                    depths@,
                    #[trigger] merged@[i],
                    #[trigger] left@[j],
                ),
            forall|i: int, j: int|
                0 <= i < merged@.len() && r <= j < right@.len() ==> drawn_before(
                    depths@,
                    #[trigger] merged@[i],
                    #[trigger] right@[j],
                ),
        decreases left@.len() - l + right@.len() - r,
    {
        let take_left = if l == left.len() {
            false
        } else if r == right.len() {
            true
        } else {
            let a: i64 = total_key(depths[left[l]]);
            let b: i64 = total_key(depths[right[r]]);
            a > b || (a == b && left[l] < right[r])
        };
        let ghost before = merged@;
        if take_left {
            merged.push(left[l]);
            proof {
                broadcast use vstd::seq_lib::group_to_multiset_ensures;

                assert(merged@ =~= before.push(left@[l as int]));
                assert(left@.take(l + 1) =~= left@.take(l as int).push(left@[l as int]));
                assert(merged@.to_multiset() =~= left@.take(l + 1).to_multiset().add(
                    right@.take(r as int).to_multiset(),
                ));
                assert forall|j: int| r <= j < right@.len() implies drawn_before(
                    depths@,
                    left@[l as int],
                    #[trigger] right@[j],
                ) by {
                    assert(drawn_before(depths@, left@[l as int], right@[r as int]));
                    if j > r {
                        assert(drawn_before(depths@, right@[r as int], right@[j]));
                    }
                }
            }
            l += 1;
        } else {
            merged.push(right[r]);
            proof {
                broadcast use vstd::seq_lib::group_to_multiset_ensures;

                assert(merged@ =~= before.push(right@[r as int]));
                assert(right@.take(r + 1) =~= right@.take(r as int).push(right@[r as int]));
                assert(merged@.to_multiset() =~= left@.take(l as int).to_multiset().add(
                    right@.take(r + 1).to_multiset(),
                ));
                assert forall|j: int| l <= j < left@.len() implies drawn_before(
                    depths@,
                    right@[r as int],
                    #[trigger] left@[j],
                ) by {
                    assert(left@[l as int] != right@[r as int]);
                    assert(drawn_before(depths@, right@[r as int], left@[l as int]));
                    if j > l {
                        assert(drawn_before(depths@, left@[l as int], left@[j]));
                    }
                }
            }
            r += 1;
        }
    }
    assert(left@.take(l as int) =~= left@);
    assert(right@.take(r as int) =~= right@);
    merged
}

/// Brings the items from `start` up to `end` into drawing order.
fn sort_between(depths: &[u32], start: usize, end: usize) -> (order: Vec<usize>)
    requires
        start <= end <= depths@.len(),
    ensures
        order@.to_multiset() == indices(depths@.len()).subrange(
            start as int,
            end as int,
        ).to_multiset(),
        order@.len() == end - start,
        forall|i: int| 0 <= i < order@.len() ==> start <= #[trigger] order@[i] < end,
        in_drawing_order(depths@, order@),
    decreases end - start,
{
    let ghost all = indices(depths@.len());
    assert(depths.len() == depths@.len());
    if end - start < 2 {
        let mut order: Vec<usize> = Vec::new();
        if start < end {
            order.push(start);
        }
        assert(order@ =~= all.subrange(start as int, end as int));
        return order;
    }
    let middle: usize = start + (end - start) / 2;
    let left = sort_between(depths, start, middle);
    let right = sort_between(depths, middle, end);
    let order = merge(depths, &left, &right);
    proof {
        let a = all.subrange(start as int, middle as int);
        let b = all.subrange(middle as int, end as int);
        assert(all.subrange(start as int, end as int) =~= a + b);
        vstd::seq_lib::lemma_multiset_commutative(a, b);
        assert forall|i: int| 0 <= i < order@.len() implies start <= #[trigger] order@[i] < end by {
            broadcast use vstd::seq_lib::group_to_multiset_ensures;

            assert(order@.contains(order@[i]));
            assert(order@.to_multiset().count(order@[i]) > 0);
            assert(left@.to_multiset().count(order@[i]) > 0 || right@.to_multiset().count(
                order@[i],
            ) > 0);
            assert(left@.contains(order@[i]) || right@.contains(order@[i]));
        }
    }
    order
}

/// The order in which items of these depths are drawn: the farthest first, and items of the same
/// depth as they come.
pub fn far_to_near(depths: &[u32]) -> (order: Vec<usize>)
    ensures
        is_far_to_near(depths@, order@),
        order@.len() == depths@.len(),
        forall|i: int| 0 <= i < order@.len() ==> #[trigger] order@[i] < depths@.len(),
{
    let order = sort_between(depths, 0, depths.len());
    assert(indices(depths@.len()).subrange(0, depths@.len() as int) =~= indices(depths@.len()));
    order
}

/// There is one order far to near: depths alone decide it, and ties go by place.
pub proof fn lemma_far_to_near_unique(depths: Seq<u32>, a: Seq<usize>, b: Seq<usize>)
    requires
        is_far_to_near(depths, a),
        is_far_to_near(depths, b),
    ensures
        a == b,
{
    let leq = |x: usize, y: usize| x == y || drawn_before(depths, x, y);
    vstd::seq_lib::lemma_sorted_unique(a, b, leq);
}

/// In the order far to near, every item comes exactly once.
pub proof fn lemma_far_to_near_covers(depths: Seq<u32>, order: Seq<usize>)
    requires
        is_far_to_near(depths, order),
        depths.len() <= usize::MAX,
    ensures
        order.len() == depths.len(),
        order.no_duplicates(),
        forall|i: usize| #[trigger] order.contains(i) <==> i < depths.len(),
{
    broadcast use vstd::seq_lib::group_to_multiset_ensures;

    let all = indices(depths.len());
    assert(order.to_multiset().len() == order.len());
    assert(all.to_multiset().len() == all.len());
    assert forall|i: usize| #[trigger] order.contains(i) <==> i < depths.len() by {
        if i < depths.len() {
            assert(all[i as int] == i);
            assert(all.contains(i));
            assert(all.to_multiset().count(i) > 0);
        }
        if order.contains(i) {
            assert(order.to_multiset().count(i) > 0);
            assert(all.contains(i));
        }
    }
}

/// Two lists of the same items have, after each item has been mapped, the same items again.
pub(crate) proof fn lemma_map_multiset<A, B>(a: Seq<A>, b: Seq<A>, f: spec_fn(A) -> B)
    requires
        a.to_multiset() == b.to_multiset(),
    ensures
        a.map_values(f).to_multiset() == b.map_values(f).to_multiset(),
    decreases a.len(),
{
    broadcast use vstd::seq_lib::group_to_multiset_ensures;

    assert(a.to_multiset().len() == a.len());
    assert(b.to_multiset().len() == b.len());
    if a.len() == 0 {
        assert(a.map_values(f) =~= b.map_values(f));
    } else {
        let x = a.last();
        let shorter = a.drop_last();
        assert(a =~= shorter.push(x));
        assert(a.contains(x));
        assert(b.to_multiset().count(x) > 0);
        let i = choose|i: int| 0 <= i < b.len() && b[i] == x;
        let rest = b.remove(i);
        assert(rest.to_multiset() =~= shorter.to_multiset()) by {
            assert(rest.to_multiset() =~= b.to_multiset().remove(x));
            assert(a.to_multiset() =~= shorter.to_multiset().insert(x));
        }
        lemma_map_multiset(shorter, rest, f);
        assert(a.map_values(f) =~= shorter.map_values(f).push(f(x)));
        assert(b.map_values(f).remove(i) =~= rest.map_values(f));
        assert(b.map_values(f)[i] == f(x));
        assert(b.map_values(f).to_multiset().count(f(x)) > 0) by {
            assert(b.map_values(f).contains(f(x)));
        }
        assert(b.map_values(f).to_multiset() =~= rest.map_values(f).to_multiset().insert(f(x)));
    }
}

/// Whether each number is larger than all before it.
pub open spec fn is_increasing(numbers: Seq<int>) -> bool {
    forall|i: int, j: int|
        0 <= i < j < numbers.len() ==> #[trigger] numbers[i] < #[trigger] numbers[j]
}

/// There is one increasing list of the same numbers.
pub(crate) proof fn lemma_increasing_unique(a: Seq<int>, b: Seq<int>)
    requires
        is_increasing(a),
        is_increasing(b),
        forall|v: int| #[trigger] a.contains(v) <==> b.contains(v),
    ensures
        a == b,
{
    assert forall|i: int| 0 <= i < a.len() && i < b.len() implies a[i] == b[i] by {
        lemma_increasing_agree(a, b, i);
    }
    lemma_increasing_no_longer(a, b);
    lemma_increasing_no_longer(b, a);
    assert(a =~= b);
}

proof fn lemma_increasing_agree(a: Seq<int>, b: Seq<int>, i: int)
    requires
        is_increasing(a),
        is_increasing(b),
        forall|v: int| #[trigger] a.contains(v) <==> b.contains(v),
        0 <= i < a.len(),
        i < b.len(),
    ensures
        a[i] == b[i],
    decreases i,
{
    if i > 0 {
        lemma_increasing_agree(a, b, i - 1);
    }
    assert(a.contains(a[i]));
    let j = choose|j: int| 0 <= j < b.len() && b[j] == a[i];
    assert(b.contains(b[i]) && a.contains(b[i]));
    let k = choose|k: int| 0 <= k < a.len() && a[k] == b[i];
    if i > 0 {
        assert(j >= i) by {
            if j < i - 1 {
                assert(b[j] < b[i - 1]);
            }
        }
        assert(k >= i) by {
            if k < i - 1 {
                assert(a[k] < a[i - 1]);
            }
        }
    }
}

proof fn lemma_increasing_no_longer(a: Seq<int>, b: Seq<int>)
    requires
        is_increasing(a),
        is_increasing(b),
        forall|v: int| #[trigger] a.contains(v) <==> b.contains(v),
    ensures
        a.len() <= b.len(),
{
    if a.len() > b.len() {
        let n = b.len() as int;
        assert(a.contains(a[n]));
        let j = choose|j: int| 0 <= j < b.len() && b[j] == a[n];
        lemma_increasing_agree(a, b, j);
        assert(a[j] < a[n]);
    }
}

/// Of two items, the one that is drawn first is not the nearer one, by their bit patterns: without
/// a sign it is not the smaller, with a sign not the larger, and a depth with a sign never comes
/// before one without. Of two items of the same depth, the first one stays first.
pub proof fn lemma_far_first(depths: Seq<u32>, order: Seq<usize>, i: int, j: int)
    requires
        is_far_to_near(depths, order),
        0 <= i < j < order.len(),
    ensures
        ({
            let a = depths[order[i] as int];
            let b = depths[order[j] as int];
            &&& a < 0x8000_0000 && b < 0x8000_0000 ==> a >= b
            &&& a >= 0x8000_0000 && b >= 0x8000_0000 ==> a <= b
            &&& a >= 0x8000_0000 ==> b >= 0x8000_0000
            &&& a == b ==> order[i] < order[j]
        }),
{
    assert(drawn_before(depths, order[i], order[j]));
}

} // verus!
