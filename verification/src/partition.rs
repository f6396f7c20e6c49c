//! Putting the objects of a scene in order along an axis, so that a tree can
//! part them in the middle.
use vstd::multiset::group_multiset_axioms;
use vstd::prelude::*;
use vstd::seq_lib::{to_multiset_contains, to_multiset_len, to_multiset_update};
use crate::aabb::AABB;
use crate::scalar::Scalar;
use crate::space::Axis;

verus! {

/// The key of the scalar at which the box of object `o` begins along `axis`.
pub open spec fn start_key(boxes: Seq<AABB>, o: usize, axis: Axis) -> int {
    start(boxes, o, axis)@
}

/// Object `o` stands at one of the places `lo..hi` of `order`.
pub open spec fn in_range(order: Seq<usize>, lo: int, hi: int, o: usize) -> bool {
    exists|k: int| lo <= k < hi && #[trigger] order[k] == o
}

/// At the places `lo..hi` of `order`, no object begins after one that
/// stands behind it.
pub open spec fn sorted_range(
    boxes: Seq<AABB>,
    order: Seq<usize>,
    lo: int,
    hi: int,
    axis: Axis,
) -> bool {
    forall|i: int, j: int|
        lo <= i <= j < hi ==> start_key(boxes, #[trigger] order[i], axis) <= start_key(
            boxes,
            #[trigger] order[j],
            axis,
        )
}

/// The scalar at which the box of object `o` begins along `axis`.
pub open spec fn start(boxes: Seq<AABB>, o: usize, axis: Axis) -> Scalar {
    boxes[o as int].mins.spec_along(axis)
}

/// The least of the scalars at which the objects at the places `lo..hi` of
/// `order` begin along `axis`.
pub open spec fn first_start(
    boxes: Seq<AABB>,
    order: Seq<usize>,
    lo: int,
    hi: int,
    axis: Axis,
) -> Scalar
    decreases hi - lo,
{
    if hi - lo <= 1 {
        start(boxes, order[lo], axis)
    } else {
        let before = first_start(boxes, order, lo, hi - 1, axis);
        let here = start(boxes, order[hi - 1], axis);
        if here@ < before@ {
            here
        } else {
            before
        }
    }
}

/// The greatest of the scalars at which the objects at the places `lo..hi`
/// of `order` begin along `axis`.
pub open spec fn last_start(
    boxes: Seq<AABB>,
    order: Seq<usize>,
    lo: int,
    hi: int,
    axis: Axis,
) -> Scalar
    decreases hi - lo,
{
    if hi - lo <= 1 {
        start(boxes, order[lo], axis)
    } else {
        let before = last_start(boxes, order, lo, hi - 1, axis);
        let here = start(boxes, order[hi - 1], axis);
        if here@ > before@ {
            here
        } else {
            before
        }
    }
}

/// How far apart the objects at the places `lo..hi` of `order` begin along
/// `axis`, in steps of two to the power of -40.
pub open spec fn spread(boxes: Seq<AABB>, order: Seq<usize>, lo: int, hi: int, axis: Axis) -> int {
    last_start(boxes, order, lo, hi, axis).spec_fixed() - first_start(
        boxes,
        order,
        lo,
        hi,
        axis,
    ).spec_fixed()
}

/// The axis of the greatest of three spreads: X unless Y or Z is greater, Y
/// unless Z is greater.
pub open spec fn widest(x: int, y: int, z: int) -> Axis {
    if x >= y && x >= z {
        Axis::X
    } else if y >= z {
        Axis::Y
    } else {
        Axis::Z
    }
}

/// The axis along which the objects at the places `lo..hi` of `order` begin
/// furthest apart.
pub open spec fn spec_widest_axis(boxes: Seq<AABB>, order: Seq<usize>, lo: int, hi: int) -> Axis {
    widest(
        spread(boxes, order, lo, hi, Axis::X),
        spread(boxes, order, lo, hi, Axis::Y),
        spread(boxes, order, lo, hi, Axis::Z),
    )
}

/// The least start is a start of the range, and no start of the range is
/// below it; so with the greatest.
pub proof fn starts_are_bounds(boxes: Seq<AABB>, order: Seq<usize>, lo: int, hi: int, axis: Axis)
    requires
        0 <= lo < hi <= order.len(),
    ensures
        forall|k: int|
            lo <= k < hi ==> first_start(boxes, order, lo, hi, axis)@ <= start_key(
                boxes,
                #[trigger] order[k],
                axis,
            ) <= last_start(boxes, order, lo, hi, axis)@,
        exists|k: int|
            lo <= k < hi && first_start(boxes, order, lo, hi, axis) == start(
                boxes,
                #[trigger] order[k],
                axis,
            ),
        exists|k: int|
            lo <= k < hi && last_start(boxes, order, lo, hi, axis) == start(
                boxes,
                #[trigger] order[k],
                axis,
            ),
    decreases hi - lo,
{
    if hi - lo <= 1 {
        assert(first_start(boxes, order, lo, hi, axis) == start(boxes, order[lo], axis));
        assert(last_start(boxes, order, lo, hi, axis) == start(boxes, order[lo], axis));
    } else {
        starts_are_bounds(boxes, order, lo, hi - 1, axis);
        let low = choose|k: int|
            lo <= k < hi - 1 && first_start(boxes, order, lo, hi - 1, axis) == start(
                boxes,
                #[trigger] order[k],
                axis,
            );
        let high = choose|k: int|
            lo <= k < hi - 1 && last_start(boxes, order, lo, hi - 1, axis) == start(
                boxes,
                #[trigger] order[k],
                axis,
            );
        let here = start(boxes, order[hi - 1], axis);
        if here@ < first_start(boxes, order, lo, hi - 1, axis)@ {
            assert(first_start(boxes, order, lo, hi, axis) == start(boxes, order[hi - 1], axis));
        } else {
            assert(first_start(boxes, order, lo, hi, axis) == start(boxes, order[low], axis));
        }
        if here@ > last_start(boxes, order, lo, hi - 1, axis)@ {
            assert(last_start(boxes, order, lo, hi, axis) == start(boxes, order[hi - 1], axis));
        } else {
            assert(last_start(boxes, order, lo, hi, axis) == start(boxes, order[high], axis));
        }
    }
}

/// Two lists of the same objects are spread alike, whatever the order of
/// the objects.
pub proof fn spread_of_same_objects(
    boxes: Seq<AABB>,
    a: Seq<usize>,
    alo: int,
    ahi: int,
    b: Seq<usize>,
    blo: int,
    bhi: int,
    axis: Axis,
)
    requires
        0 <= alo < ahi <= a.len(),
        0 <= blo < bhi <= b.len(),
        forall|o: usize| in_range(a, alo, ahi, o) <==> in_range(b, blo, bhi, o),
    ensures
        spread(boxes, a, alo, ahi, axis) == spread(boxes, b, blo, bhi, axis),
        first_start(boxes, a, alo, ahi, axis) == first_start(boxes, b, blo, bhi, axis),
        last_start(boxes, a, alo, ahi, axis) == last_start(boxes, b, blo, bhi, axis),
{
    starts_are_bounds(boxes, a, alo, ahi, axis);
    starts_are_bounds(boxes, b, blo, bhi, axis);
    let a_low = choose|k: int|
        alo <= k < ahi && first_start(boxes, a, alo, ahi, axis) == start(
            boxes,
            #[trigger] a[k],
            axis,
        );
    let b_low = choose|k: int|
        blo <= k < bhi && first_start(boxes, b, blo, bhi, axis) == start(
            boxes,
            #[trigger] b[k],
            axis,
        );
    let a_high = choose|k: int|
        alo <= k < ahi && last_start(boxes, a, alo, ahi, axis) == start(
            boxes,
            #[trigger] a[k],
            axis,
        );
    let b_high = choose|k: int|
        blo <= k < bhi && last_start(boxes, b, blo, bhi, axis) == start(
            boxes,
            #[trigger] b[k],
            axis,
        );
    assert(in_range(a, alo, ahi, a[a_low]));
    assert(in_range(b, blo, bhi, b[b_low]));
    assert(in_range(a, alo, ahi, a[a_high]));
    assert(in_range(b, blo, bhi, b[b_high]));
    let a_low_in_b = choose|k: int| blo <= k < bhi && #[trigger] b[k] == a[a_low];
    let b_low_in_a = choose|k: int| alo <= k < ahi && #[trigger] a[k] == b[b_low];
    let a_high_in_b = choose|k: int| blo <= k < bhi && #[trigger] b[k] == a[a_high];
    let b_high_in_a = choose|k: int| alo <= k < ahi && #[trigger] a[k] == b[b_high];
    assert(first_start(boxes, a, alo, ahi, axis)@ == first_start(boxes, b, blo, bhi, axis)@);
    assert(last_start(boxes, a, alo, ahi, axis)@ == last_start(boxes, b, blo, bhi, axis)@);
}

/// Two lists that hold the same entries, each as often as the other, hold
/// the same objects.
pub proof fn same_entries_same_objects(a: Seq<usize>, b: Seq<usize>, blo: int, bhi: int)
    requires
        0 <= blo <= bhi <= b.len(),
        a.to_multiset() == b.subrange(blo, bhi).to_multiset(),
    ensures
        a.len() == bhi - blo,
        forall|o: usize| in_range(a, 0, a.len() as int, o) <==> in_range(b, blo, bhi, o),
{
    let part = b.subrange(blo, bhi);
    to_multiset_len(a);
    to_multiset_len(part);
    assert forall|o: usize| in_range(a, 0, a.len() as int, o) <==> in_range(b, blo, bhi, o) by {
        to_multiset_contains(a, o);
        to_multiset_contains(part, o);
        if in_range(a, 0, a.len() as int, o) {
            let k = choose|k: int| 0 <= k < a.len() && #[trigger] a[k] == o;
            assert(a.contains(o));
            assert(part.contains(o));
            let j = choose|j: int| 0 <= j < part.len() && part[j] == o;
            assert(b[blo + j] == o);
        }
        if in_range(b, blo, bhi, o) {
            let k = choose|k: int| blo <= k < bhi && #[trigger] b[k] == o;
            assert(part[k - blo] == o);
            assert(part.contains(o));
            assert(a.contains(o));
            let j = choose|j: int| 0 <= j < a.len() && a[j] == o;
            assert(a[j] == o);
        }
    }
}

/// How far apart the objects at the places `lo..hi` of `order` begin along
/// `axis`.
pub fn spread_along(boxes: &Vec<AABB>, order: &Vec<usize>, lo: usize, hi: usize, axis: Axis) -> (r:
    i128)
    requires
        lo < hi <= order.len(),
        forall|k: int| 0 <= k < order.len() ==> order[k] < boxes.len(),
    ensures
        r == spread(boxes@, order@, lo as int, hi as int, axis),
{
    let mut first: Scalar = boxes[order[lo]].mins.along(axis);
    let mut last: Scalar = first;
    let mut k: usize = lo + 1;
    while k < hi
        invariant
            lo < k <= hi <= order.len(),
            forall|k: int| 0 <= k < order.len() ==> order[k] < boxes.len(),
            first == first_start(boxes@, order@, lo as int, k as int, axis),
            last == last_start(boxes@, order@, lo as int, k as int, axis),
        decreases hi - k,
    {
        let here: Scalar = boxes[order[k]].mins.along(axis);
        if here.lt(&first) {
            first = here;
        }
        if last.lt(&here) {
            last = here;
        }
        k = k + 1;
    }
    last.fixed() - first.fixed()
}

/// The axis along which the objects at the places `lo..hi` of `order` begin
/// furthest apart: X unless they are further apart along Y or Z, Y unless
/// they are further apart along Z.
pub fn widest_axis(boxes: &Vec<AABB>, order: &Vec<usize>, lo: usize, hi: usize) -> (axis: Axis)
    requires
        lo < hi <= order.len(),
        forall|k: int| 0 <= k < order.len() ==> order[k] < boxes.len(),
    ensures
        axis == spec_widest_axis(boxes@, order@, lo as int, hi as int),
{
    let x: i128 = spread_along(boxes, order, lo, hi, Axis::X);
    let y: i128 = spread_along(boxes, order, lo, hi, Axis::Y);
    let z: i128 = spread_along(boxes, order, lo, hi, Axis::Z);
    if x >= y && x >= z {
        Axis::X
    } else if y >= z {
        Axis::Y
    } else {
        Axis::Z
    }
}

/// Exchanging two entries of a sequence leaves it with the entries it had,
/// each as often as before.
pub proof fn exchange_keeps_entries(order: Seq<usize>, a: int, b: int)
    requires
        0 <= a < order.len(),
        0 <= b < order.len(),
    ensures
        order.update(a, order[b]).update(b, order[a]).to_multiset() == order.to_multiset(),
{
    broadcast use group_multiset_axioms;

    let half = order.update(a, order[b]);
    to_multiset_update(order, a, order[b]);
    to_multiset_update(half, b, order[a]);
    to_multiset_contains(order, order[a]);
    to_multiset_contains(order, order[b]);
    assert(order.contains(order[a]));
    assert(order.contains(order[b]));
    assert(order.update(a, order[b]).update(b, order[a]).to_multiset() =~= order.to_multiset());
}

/// Exchanging the objects at two places of a range leaves the range with
/// the objects it had.
pub proof fn exchange_keeps_range(order: Seq<usize>, lo: int, hi: int, a: int, b: int, o: usize)
    requires
        0 <= lo <= a < hi <= order.len(),
        lo <= b < hi,
    ensures
        in_range(order.update(a, order[b]).update(b, order[a]), lo, hi, o) <==> in_range(
            order,
            lo,
            hi,
            o,
        ),
{
    let after = order.update(a, order[b]).update(b, order[a]);
    if in_range(order, lo, hi, o) {
        let k = choose|k: int| lo <= k < hi && #[trigger] order[k] == o;
        let to = if k == a {
            b
        } else if k == b {
            a
        } else {
            k
        };
        assert(after[to] == o);
    }
    if in_range(after, lo, hi, o) {
        let k = choose|k: int| lo <= k < hi && #[trigger] after[k] == o;
        let from = if k == a {
            b
        } else if k == b {
            a
        } else {
            k
        };
        assert(order[from] == o);
    }
}

/// Puts the objects at the places `lo..hi` of `order` in the order in which
/// their boxes begin along `axis`. The range keeps its objects, and every
/// other place its object.
pub fn sort_range(boxes: &Vec<AABB>, order: &mut Vec<usize>, lo: usize, hi: usize, axis: Axis)
    requires
        lo <= hi <= old(order).len(),
        forall|k: int| 0 <= k < old(order).len() ==> old(order)[k] < boxes.len(),
    ensures
        final(order).len() == old(order).len(),
        forall|k: int| 0 <= k < final(order).len() ==> final(order)[k] < boxes.len(),
        forall|k: int|
            0 <= k < final(order).len() && !(lo <= k < hi) ==> final(order)[k] == old(order)[k],
        forall|o: usize|
            in_range(final(order)@, lo as int, hi as int, o) <==> in_range(
                old(order)@,
                lo as int,
                hi as int,
                o,
            ),
        final(order)@.subrange(lo as int, hi as int).to_multiset() == old(order)@.subrange(
            lo as int,
            hi as int,
        ).to_multiset(),
        sorted_range(boxes@, final(order)@, lo as int, hi as int, axis),
{
    if hi - lo < 2 {
        return ;
    }
    let mut i: usize = lo + 1;
    while i < hi
        invariant
            lo < i <= hi <= order.len(),
            order.len() == old(order).len(),
            forall|k: int| 0 <= k < order.len() ==> order[k] < boxes.len(),
            forall|k: int| 0 <= k < order.len() && !(lo <= k < hi) ==> order[k] == old(order)[k],
            forall|o: usize|
                in_range(order@, lo as int, hi as int, o) <==> in_range(
                    old(order)@,
                    lo as int,
                    hi as int,
                    o,
                ),
            order@.subrange(lo as int, hi as int).to_multiset() == old(order)@.subrange(
                lo as int,
                hi as int,
            ).to_multiset(),
            sorted_range(boxes@, order@, lo as int, i as int, axis),
        decreases hi - i,
    {
        let mut j: usize = i;
        while j > lo && boxes[order[j]].mins.along(axis).lt(&boxes[order[j - 1]].mins.along(axis))
            invariant
                lo <= j <= i < hi <= order.len(),
                order.len() == old(order).len(),
                forall|k: int| 0 <= k < order.len() ==> order[k] < boxes.len(),
                forall|k: int|
                    0 <= k < order.len() && !(lo <= k < hi) ==> order[k] == old(order)[k],
                forall|o: usize|
                    in_range(order@, lo as int, hi as int, o) <==> in_range(
                        old(order)@,
                        lo as int,
                        hi as int,
                        o,
                    ),
                order@.subrange(lo as int, hi as int).to_multiset() == old(order)@.subrange(
                    lo as int,
                    hi as int,
                ).to_multiset(),
                sorted_range(boxes@, order@, lo as int, j as int, axis),
                sorted_range(boxes@, order@, j as int, i + 1, axis),
                forall|a: int, b: int|
                    lo <= a < j && j < b <= i ==> start_key(boxes@, #[trigger] order[a], axis)
                        <= start_key(boxes@, #[trigger] order[b], axis),
            decreases j,
        {
            let ghost before = order@;
            let behind: usize = order[j];
            let ahead: usize = order[j - 1];
            order.set(j - 1, behind);
            order.set(j, ahead);
            proof {
                assert(order@ == before.update(j - 1, before[j as int]).update(
                    j as int,
                    before[j - 1],
                ));
                assert forall|o: usize|
                    in_range(order@, lo as int, hi as int, o) <==> in_range(
                        old(order)@,
                        lo as int,
                        hi as int,
                        o,
                    ) by {
                    exchange_keeps_range(before, lo as int, hi as int, j - 1, j as int, o);
                }
                let part = before.subrange(lo as int, hi as int);
                exchange_keeps_entries(part, j - 1 - lo, j - lo);
                assert(order@.subrange(lo as int, hi as int) =~= part.update(
                    j - 1 - lo,
                    part[j - lo],
                ).update(j - lo, part[j - 1 - lo]));
            }
            j = j - 1;
        }
        i = i + 1;
    }
}

} // verus!
