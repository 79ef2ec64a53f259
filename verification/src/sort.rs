//! Putting numbers in order.

use crate::clock::Nanos;
use vstd::prelude::*;

verus! {

/// Whether the numbers stand in ascending order.
pub open spec fn ascending(values: Seq<Nanos>) -> bool {
    forall|i: int, j: int| 0 <= i <= j < values.len() ==> values[i] <= values[j]
}

proof fn lemma_take_one_more(values: Seq<Nanos>, taken: int)
    requires
        0 <= taken < values.len(),
    ensures
        values.take(taken + 1).to_multiset() == values.take(taken).to_multiset().insert(
            values[taken],
        ),
{
    broadcast use vstd::seq_lib::group_to_multiset_ensures;

    assert(values.take(taken + 1) =~= values.take(taken).push(values[taken]));
}

/// The numbers of both vectors, in ascending order.
fn merge(left: &Vec<Nanos>, right: &Vec<Nanos>) -> (merged: Vec<Nanos>)
    requires
        ascending(left@),
        ascending(right@),
    ensures
        ascending(merged@),
        merged@.to_multiset() == left@.to_multiset().add(right@.to_multiset()),
{
    broadcast use vstd::seq_lib::group_to_multiset_ensures;

    let mut merged: Vec<Nanos> = Vec::new();
    let mut l: usize = 0;
    let mut r: usize = 0;
    assert(merged@.to_multiset() =~= left@.take(0).to_multiset().add(right@.take(0).to_multiset()));
    while l < left.len() || r < right.len()
        invariant
            ascending(left@),
            ascending(right@),
            l <= left.len(),
            r <= right.len(),
            ascending(merged@),
            forall|k: int, i: int|
                0 <= k < merged.len() && l <= i < left.len() ==> merged@[k] <= left@[i],
            forall|k: int, i: int|
                0 <= k < merged.len() && r <= i < right.len() ==> merged@[k] <= right@[i],
            merged@.to_multiset() == left@.take(l as int).to_multiset().add(
                right@.take(r as int).to_multiset(),
            ),
        decreases left.len() - l + (right.len() - r),
    {
        broadcast use vstd::seq_lib::group_to_multiset_ensures;

        if r == right.len() || (l < left.len() && left[l] <= right[r]) {
            proof {
                lemma_take_one_more(left@, l as int);
            }
            merged.push(left[l]);
            l += 1;
        } else {
            proof {
                lemma_take_one_more(right@, r as int);
            }
            merged.push(right[r]);
            r += 1;
        }
        assert(merged@.to_multiset() =~= left@.take(l as int).to_multiset().add(
            right@.take(r as int).to_multiset(),
        ));
    }
    assert(left@.take(l as int) =~= left@);
    assert(right@.take(r as int) =~= right@);
    merged
}

/// The numbers from `from` up to, but not including, `to`, in ascending order.
fn sorted_part(values: &Vec<Nanos>, from: usize, to: usize) -> (part: Vec<Nanos>)
    requires
        from <= to <= values.len(),
    ensures
        ascending(part@),
        part@.to_multiset() == values@.subrange(from as int, to as int).to_multiset(),
    decreases to - from,
{
    if to - from <= 1 {
        let mut part: Vec<Nanos> = Vec::new();
        if from < to {
            part.push(values[from]);
        }
        assert(part@ =~= values@.subrange(from as int, to as int));
        part
    } else {
        let middle: usize = from + (to - from) / 2;
        let left = sorted_part(values, from, middle);
        let right = sorted_part(values, middle, to);
        proof {
            let front = values@.subrange(from as int, middle as int);
            let back = values@.subrange(middle as int, to as int);
            vstd::seq_lib::lemma_multiset_commutative(front, back);
            assert(front + back =~= values@.subrange(from as int, to as int));
        }
        merge(&left, &right)
    }
}

/// The numbers in ascending order.
pub fn sort(values: &Vec<Nanos>) -> (sorted: Vec<Nanos>)
    ensures
        ascending(sorted@),
        forall|i: int, j: int| 0 <= i <= j < sorted@.len() ==> sorted@[i] <= sorted@[j],
        sorted@.to_multiset() == values@.to_multiset(),
{
    assert(values@.subrange(0, values.len() as int) =~= values@);
    sorted_part(values, 0, values.len())
}

/// Numbers can be put in ascending order in one way only.
pub proof fn lemma_order_is_unique(left: Seq<Nanos>, right: Seq<Nanos>)
    requires
        ascending(left),
        ascending(right),
        left.to_multiset() == right.to_multiset(),
    ensures
        left == right,
{
    let at_most = |a: Nanos, b: Nanos| a <= b;
    assert(vstd::relations::sorted_by(left, at_most));
    assert(vstd::relations::sorted_by(right, at_most));
    vstd::seq_lib::lemma_sorted_unique(left, right, at_most);
}

} // verus!
