//! Ordering the primitives of a subtree along one axis.
use vstd::prelude::*;
use vstd::seq_lib::lemma_multiset_commutative;
use crate::aabb::AABB;

verus! {

/// The coordinate by which primitive `i` is ordered along `axis`: the
/// minimum corner of its box.
pub open spec fn key_of(boxes: Seq<AABB>, axis: int, i: usize) -> int {
    boxes[i as int].minimum.get(axis)
}

/// Primitive `i` comes no later than primitive `j` along `axis`: its key is
/// smaller, or the keys are equal and its index is not larger.
pub open spec fn comes_before(boxes: Seq<AABB>, axis: int, i: usize, j: usize) -> bool {
    key_of(boxes, axis, i) < key_of(boxes, axis, j) || (key_of(boxes, axis, i) == key_of(
        boxes,
        axis,
        j,
    ) && i <= j)
}

/// Every index names one of `n` primitives.
pub open spec fn all_below(s: Seq<usize>, n: int) -> bool {
    forall|k: int| 0 <= k < s.len() ==> (#[trigger] s[k]) < n
}

/// The indices are in ascending order of their keys along `axis`, and where
/// keys are equal, in ascending order of the indices themselves.
pub open spec fn sorted_along(boxes: Seq<AABB>, axis: int, s: Seq<usize>) -> bool {
    forall|a: int, b: int|
        0 <= a < b < s.len() ==> comes_before(boxes, axis, #[trigger] s[a], #[trigger] s[b])
}

/// A member of one sequence is a member of any sequence with the same
/// multiset of members.
pub proof fn lemma_member_of_both<T>(first: Seq<T>, second: Seq<T>, i: int)
    requires
        0 <= i < first.len(),
        first.to_multiset() == second.to_multiset(),
    ensures
        exists|j: int| 0 <= j < second.len() && #[trigger] second[j] == first[i],
{
    first.to_multiset_ensures();
    second.to_multiset_ensures();
    assert(first.contains(first[i]));
    assert(second.to_multiset().count(first[i]) > 0);
    assert(second.contains(first[i]));
}

/// A copy of `v[lo..hi]`.
pub fn copy_range(v: &Vec<usize>, lo: usize, hi: usize) -> (out: Vec<usize>)
    requires
        lo <= hi <= v.len(),
    ensures
        out@ == v@.subrange(lo as int, hi as int),
{
    let mut out: Vec<usize> = Vec::new();
    let mut i: usize = lo;
    while i < hi
        invariant
            lo <= i <= hi <= v.len(),
            out@ == v@.subrange(lo as int, i as int),
        decreases hi - i,
    {
        out.push(v[i]);
        assert(out@ =~= v@.subrange(lo as int, i + 1));
        i += 1;
    }
    out
}

fn is_before(boxes: &Vec<AABB>, axis: usize, i: usize, j: usize) -> (b: bool)
    requires
        i < boxes.len(),
        j < boxes.len(),
    ensures
        b == comes_before(boxes@, axis as int, i, j),
{
    let ki = boxes[i].minimum.component(axis);
    let kj = boxes[j].minimum.component(axis);
    ki < kj || (ki == kj && i <= j)
}

/// Merge two ascending runs into one.
fn merge(boxes: &Vec<AABB>, axis: usize, left: &Vec<usize>, right: &Vec<usize>) -> (out: Vec<usize>)
    requires
        all_below(left@, boxes.len() as int),
        all_below(right@, boxes.len() as int),
        sorted_along(boxes@, axis as int, left@),
        sorted_along(boxes@, axis as int, right@),
        left.len() + right.len() <= usize::MAX,
    ensures
        out@.to_multiset() == left@.to_multiset().add(right@.to_multiset()),
        sorted_along(boxes@, axis as int, out@),
        all_below(out@, boxes.len() as int),
        out.len() == left.len() + right.len(),
{
    let mut out: Vec<usize> = Vec::new();
    let mut i: usize = 0;
    let mut j: usize = 0;
    proof {
        let empty = Seq::<usize>::empty();
        assert(left@.take(0) =~= empty && right@.take(0) =~= empty && out@ =~= empty);
        assert(empty + empty =~= empty);
        lemma_multiset_commutative(empty, empty);
    }
    while i < left.len() || j < right.len()
        invariant
            i <= left.len(),
            j <= right.len(),
            out.len() == i + j,
            all_below(left@, boxes.len() as int),
            all_below(right@, boxes.len() as int),
            sorted_along(boxes@, axis as int, left@),
            sorted_along(boxes@, axis as int, right@),
            out@.to_multiset() == left@.take(i as int).to_multiset().add(
                right@.take(j as int).to_multiset(),
            ),
            sorted_along(boxes@, axis as int, out@),
            all_below(out@, boxes.len() as int),
            forall|k: int|
                0 <= k < out.len() && i < left.len() ==> comes_before(
                    boxes@,
                    axis as int,
                    #[trigger] out@[k],
                    left@[i as int],
                ),
            forall|k: int|
                0 <= k < out.len() && j < right.len() ==> comes_before(
                    boxes@,
                    axis as int,
                    #[trigger] out@[k],
                    right@[j as int],
                ),
        decreases left.len() - i + right.len() - j,
    {
        let from_left = if j == right.len() {
            true
        } else if i == left.len() {
            false
        } else {
            is_before(boxes, axis, left[i], right[j])
        };
        let ghost before = out@;
        if from_left {
            let x = left[i];
            out.push(x);
            proof {
                before.to_multiset_ensures();
                left@.take(i as int).to_multiset_ensures();
                assert(left@.take(i + 1) =~= left@.take(i as int).push(x));
                assert(out@.to_multiset() =~= left@.take(i + 1).to_multiset().add(
                    right@.take(j as int).to_multiset(),
                ));
            }
            i += 1;
        } else {
            let x = right[j];
            out.push(x);
            proof {
                before.to_multiset_ensures();
                right@.take(j as int).to_multiset_ensures();
                assert(right@.take(j + 1) =~= right@.take(j as int).push(x));
                assert(out@.to_multiset() =~= left@.take(i as int).to_multiset().add(
                    right@.take(j + 1).to_multiset(),
                ));
            }
            j += 1;
        }
    }
    assert(left@.take(i as int) =~= left@);
    assert(right@.take(j as int) =~= right@);
    out
}

/// The indices in ascending order of their keys along `axis`; indices with
/// equal keys come in ascending order.
pub fn sort_along(boxes: &Vec<AABB>, axis: usize, indices: &Vec<usize>) -> (out: Vec<usize>)
    requires
        all_below(indices@, boxes.len() as int),
    ensures
        out@.to_multiset() == indices@.to_multiset(),
        sorted_along(boxes@, axis as int, out@),
        all_below(out@, boxes.len() as int),
        out.len() == indices.len(),
    decreases indices.len(),
{
    let n = indices.len();
    if n <= 1 {
        let out = copy_range(indices, 0, n);
        assert(out@ =~= indices@);
        return out;
    }
    let mid = n / 2;
    let left = copy_range(indices, 0, mid);
    let right = copy_range(indices, mid, n);
    proof {
        assert(indices@ =~= left@ + right@);
        lemma_multiset_commutative(left@, right@);
    }
    let left_sorted = sort_along(boxes, axis, &left);
    let right_sorted = sort_along(boxes, axis, &right);
    merge(boxes, axis, &left_sorted, &right_sorted)
}

} // verus!
