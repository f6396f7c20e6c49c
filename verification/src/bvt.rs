//! The acceleration structure: a balanced tree of bounding volumes, searched
//! best first.
use vstd::prelude::*;
use vstd::seq_lib::lemma_multiset_commutative;
use crate::aabb::AABB;
use crate::partition::{
    in_range, same_entries_same_objects, sort_range, spec_widest_axis, spread_of_same_objects,
    start_key, widest_axis,
};
use crate::queue::{pending_weight, Pending, Queue};
use crate::scalar::Scalar;
use crate::space::Axis;

verus! {

/// A node of the tree. Its children, if it has any, stand before it in the
/// tree's node list.
#[derive(Clone, Copy, Debug)]
pub enum Node {
    /// One object, by its index, with the object's box.
    Leaf { bv: AABB, object: usize },
    /// Two subtrees, with the smallest box that holds both. Along `axis`
    /// no object of the left subtree begins after one of the right.
    Internal { bv: AABB, left: usize, right: usize, axis: Axis },
}

impl Node {
    /// The node's bounding volume.
    pub open spec fn spec_bv(&self) -> AABB {
        match *self {
            Node::Leaf { bv, .. } => bv,
            Node::Internal { bv, .. } => bv,
        }
    }

    /// The node's bounding volume.
    pub fn bv(&self) -> (r: AABB)
        ensures
            r == self.spec_bv(),
    {
        match self {
            Node::Leaf { bv, .. } => *bv,
            Node::Internal { bv, .. } => *bv,
        }
    }
}

/// The objects in the leaves of the subtree whose root is node `i`.
pub open spec fn objects_under(nodes: Seq<Node>, i: int) -> Set<int>
    decreases i,
{
    if i < 0 || i >= nodes.len() {
        Set::empty()
    } else {
        match nodes[i] {
            Node::Leaf { object, .. } => set![object as int],
            Node::Internal { left, right, .. } => if left < i && right < i {
                objects_under(nodes, left as int).union(objects_under(nodes, right as int))
            } else {
                Set::empty()
            },
        }
    }
}

/// The objects in the leaves of the subtree whose root is node `i`, from
/// left to right.
pub open spec fn leaves_in_order(nodes: Seq<Node>, i: int) -> Seq<usize>
    decreases i,
{
    if i < 0 || i >= nodes.len() {
        Seq::empty()
    } else {
        match nodes[i] {
            Node::Leaf { object, .. } => seq![object],
            Node::Internal { left, right, .. } => if left < i && right < i {
                leaves_in_order(nodes, left as int) + leaves_in_order(nodes, right as int)
            } else {
                Seq::empty()
            },
        }
    }
}

/// The number of leaves of the subtree whose root is node `i`.
pub open spec fn leaves_under(nodes: Seq<Node>, i: int) -> nat
    decreases i,
{
    if i < 0 || i >= nodes.len() {
        0
    } else {
        match nodes[i] {
            Node::Leaf { .. } => 1,
            Node::Internal { left, right, .. } => if left < i && right < i {
                leaves_under(nodes, left as int) + leaves_under(nodes, right as int)
            } else {
                0
            },
        }
    }
}

/// The number of nodes of the subtree whose root is node `i`.
pub open spec fn nodes_under(nodes: Seq<Node>, i: int) -> nat
    decreases i,
{
    if i < 0 || i >= nodes.len() {
        1
    } else {
        match nodes[i] {
            Node::Leaf { .. } => 1,
            Node::Internal { left, right, .. } => if left < i && right < i {
                1 + nodes_under(nodes, left as int) + nodes_under(nodes, right as int)
            } else {
                1
            },
        }
    }
}

/// Node `i` is sound: a leaf holds an object of the scene with that object's
/// box; an inner node has its children before it, their merged box as its
/// own, and as many leaves on one side as on the other, or one more.
pub open spec fn node_wf(nodes: Seq<Node>, boxes: Seq<AABB>, i: int) -> bool {
    match nodes[i] {
        Node::Leaf { bv, object } => object < boxes.len() && bv == boxes[object as int],
        Node::Internal { bv, left, right, .. } => {
            &&& left < i
            &&& right < i
            &&& bv == nodes[left as int].spec_bv().spec_merged(nodes[right as int].spec_bv())
            &&& leaves_under(nodes, left as int) <= leaves_under(nodes, right as int)
                <= leaves_under(nodes, left as int) + 1
        },
    }
}

/// Node `i` parts its objects in space: its axis is the one along which the
/// boxes of its objects begin furthest apart, and along it no object under
/// its left child begins after an object under its right child.
pub open spec fn node_parts(nodes: Seq<Node>, boxes: Seq<AABB>, i: int) -> bool {
    match nodes[i] {
        Node::Leaf { .. } => true,
        Node::Internal { left, right, axis, .. } => {
            &&& axis == spec_widest_axis(
                boxes,
                leaves_in_order(nodes, i),
                0,
                leaves_in_order(nodes, i).len() as int,
            )
            &&& forall|a: usize, b: usize|
                #[trigger] objects_under(nodes, left as int).contains(a as int)
                    && #[trigger] objects_under(nodes, right as int).contains(b as int)
                    ==> start_key(boxes, a, axis) <= start_key(boxes, b, axis)
        },
    }
}

/// A bounding-volume tree over the objects of a scene. Object `o` is known by
/// its index; `boxes[o]` is its box. The root is the last node.
pub struct BVT {
    pub nodes: Vec<Node>,
    pub boxes: Vec<AABB>,
}

impl BVT {
    /// Every node is sound, and every object of the scene is in some leaf
    /// under the root. A tree over no objects has no nodes.
    pub open spec fn wf(&self) -> bool {
        &&& forall|i: int| 0 <= i < self.nodes.len() ==> node_wf(self.nodes@, self.boxes@, i)
        &&& self.boxes.len() == 0 <==> self.nodes.len() == 0
        &&& forall|o: int|
            0 <= o < self.boxes.len() ==> #[trigger] objects_under(
                self.nodes@,
                self.nodes.len() - 1,
            ).contains(o)
    }

    /// The number of objects in the tree.
    pub fn len(&self) -> (n: usize)
        ensures
            n == self.boxes.len(),
    {
        self.boxes.len()
    }

    /// The box of object `o`.
    pub fn bounding_volume(&self, o: usize) -> (r: Option<AABB>)
        ensures
            r == if o < self.boxes.len() { Some(self.boxes[o as int]) } else { None },
    {
        if o < self.boxes.len() {
            Some(self.boxes[o])
        } else {
            None
        }
    }

    /// The objects in the leaves of the tree, from left to right.
    pub open spec fn spec_leaves(&self) -> Seq<usize> {
        leaves_in_order(self.nodes@, self.nodes.len() - 1)
    }

    /// Every inner node parts its objects in space.
    pub open spec fn parted(&self) -> bool {
        forall|i: int| 0 <= i < self.nodes.len() ==> node_parts(self.nodes@, self.boxes@, i)
    }

    /// The tree over the objects whose boxes are given, object `o` being the
    /// one with `boxes[o]`.
    ///
    /// The objects under a node are parted in the middle, along one axis
    /// and in the order in which their boxes begin: the two subtrees differ
    /// by at most one leaf, and no object of the left one begins after an
    /// object of the right one. The axis is the one along which the boxes
    /// of the node's objects begin furthest apart.
    pub fn new_balanced(boxes: Vec<AABB>) -> (tree: BVT)
        ensures
            tree.wf(),
            tree.parted(),
            tree.boxes@ == boxes@,
            tree.spec_leaves().to_multiset() == Seq::new(boxes.len() as nat, |o: int| o as usize)
                .to_multiset(),
            boxes.len() > 0 ==> tree.nodes.len() == 2 * boxes.len() - 1,
            boxes.len() > 0 ==> leaves_under(tree.nodes@, tree.nodes.len() - 1) == boxes.len(),
    {
        let mut nodes: Vec<Node> = Vec::new();
        let n: usize = boxes.len();
        if n > 0 {
            let mut order: Vec<usize> = Vec::new();
            let mut o: usize = 0;
            while o < n
                invariant
                    o <= n,
                    n == boxes.len(),
                    order.len() == o,
                    forall|k: int| 0 <= k < o ==> order[k] == k,
                decreases n - o,
            {
                order.push(o);
                o = o + 1;
            }
            let ghost first = order@;
            let root: usize = build(&boxes, &mut order, 0, n, &mut nodes);
            proof {
                assert forall|o: int| 0 <= o < boxes.len() implies #[trigger] objects_under(
                    nodes@,
                    nodes.len() - 1,
                ).contains(o) by {
                    assert(first[o] == o as usize);
                    assert(in_range(first, 0, n as int, o as usize));
                }
                assert(first.subrange(0, n as int) =~= Seq::new(n as nat, |o: int| o as usize));
            }
        } else {
            proof {
                assert(Seq::new(0nat, |o: int| o as usize) =~= Seq::<usize>::empty());
            }
        }
        BVT { nodes, boxes }
    }
}

/// Two node lists that agree up to node `i` have the same subtree there.
pub proof fn subtree_depends_on_prefix(a: Seq<Node>, b: Seq<Node>, i: int)
    requires
        0 <= i < a.len(),
        i < b.len(),
        forall|j: int| 0 <= j <= i ==> a[j] == b[j],
    ensures
        objects_under(a, i) == objects_under(b, i),
        leaves_in_order(a, i) == leaves_in_order(b, i),
        leaves_under(a, i) == leaves_under(b, i),
        nodes_under(a, i) == nodes_under(b, i),
    decreases i,
{
    match a[i] {
        Node::Leaf { .. } => {},
        Node::Internal { left, right, .. } => {
            if left < i && right < i {
                subtree_depends_on_prefix(a, b, left as int);
                subtree_depends_on_prefix(a, b, right as int);
            }
        },
    }
}

/// Appends to `nodes` the subtree over the objects at the places `lo..hi` of
/// `order` and returns its root, which is the last node appended. The
/// objects of that range are put in another order; every other place keeps
/// its object.
fn build(
    boxes: &Vec<AABB>,
    order: &mut Vec<usize>,
    lo: usize,
    hi: usize,
    nodes: &mut Vec<Node>,
) -> (root: usize)
    requires
        lo < hi <= old(order).len(),
        forall|k: int| 0 <= k < old(order).len() ==> old(order)[k] < boxes.len(),
        forall|i: int| 0 <= i < old(nodes).len() ==> node_wf(old(nodes)@, boxes@, i),
        forall|i: int| 0 <= i < old(nodes).len() ==> node_parts(old(nodes)@, boxes@, i),
    ensures
        final(order).len() == old(order).len(),
        forall|k: int| 0 <= k < final(order).len() ==> final(order)[k] < boxes.len(),
        forall|k: int|
            0 <= k < final(order).len() && !(lo <= k < hi) ==> final(order)[k] == old(order)[k],
        final(nodes).len() == old(nodes).len() + 2 * (hi - lo) - 1,
        root == final(nodes).len() - 1,
        forall|i: int| 0 <= i < old(nodes).len() ==> final(nodes)[i] == old(nodes)[i],
        forall|i: int| 0 <= i < final(nodes).len() ==> node_wf(final(nodes)@, boxes@, i),
        forall|i: int| 0 <= i < final(nodes).len() ==> node_parts(final(nodes)@, boxes@, i),
        forall|o: usize|
            #[trigger] objects_under(final(nodes)@, root as int).contains(o as int) <==> in_range(
                old(order)@,
                lo as int,
                hi as int,
                o,
            ),
        forall|o: int|
            objects_under(final(nodes)@, root as int).contains(o) ==> 0 <= o < boxes.len(),
        leaves_in_order(final(nodes)@, root as int).to_multiset() == old(order)@.subrange(
            lo as int,
            hi as int,
        ).to_multiset(),
        leaves_under(final(nodes)@, root as int) == hi - lo,
    decreases hi - lo,
{
    if hi - lo == 1 {
        let object: usize = order[lo];
        nodes.push(Node::Leaf { bv: boxes[object], object });
        let root: usize = nodes.len() - 1;
        proof {
            assert forall|i: int| 0 <= i < nodes.len() implies node_wf(nodes@, boxes@, i)
                && node_parts(nodes@, boxes@, i) by {
                if i < old(nodes).len() {
                    preserved_by_extension(old(nodes)@, nodes@, boxes@, i);
                }
            }
            assert forall|o: usize|
                #[trigger] objects_under(nodes@, root as int).contains(o as int) <==> in_range(
                    old(order)@,
                    lo as int,
                    hi as int,
                    o,
                ) by {
                if o == object {
                    assert(old(order)@[lo as int] == o);
                }
            }
            assert(old(order)@.subrange(lo as int, hi as int) =~= seq![object]);
        }
        root
    } else {
        let axis: Axis = widest_axis(boxes, order, lo, hi);
        let ghost given = order@;
        sort_range(boxes, order, lo, hi, axis);
        let ghost sorted = order@;
        let mid: usize = lo + (hi - lo) / 2;
        let left: usize = build(boxes, order, lo, mid, nodes);
        let ghost between = nodes@;
        let ghost halfway = order@;
        let right: usize = build(boxes, order, mid, hi, nodes);
        let ghost after = nodes@;
        let bv: AABB = nodes[left].bv().merged(&nodes[right].bv());
        nodes.push(Node::Internal { bv, left, right, axis });
        let root: usize = nodes.len() - 1;
        proof {
            assert forall|j: int| 0 <= j < after.len() implies nodes@[j] == after[j] by {}
            subtree_depends_on_prefix(between, after, left as int);
            subtree_depends_on_prefix(between, nodes@, left as int);
            subtree_depends_on_prefix(after, nodes@, right as int);
            assert forall|o: usize|
                objects_under(nodes@, left as int).contains(o as int) <==> in_range(
                    sorted,
                    lo as int,
                    mid as int,
                    o,
                ) by {
                assert(objects_under(between, left as int).contains(o as int) <==> in_range(
                    sorted,
                    lo as int,
                    mid as int,
                    o,
                ));
            }
            assert forall|o: usize|
                objects_under(nodes@, right as int).contains(o as int) <==> in_range(
                    sorted,
                    mid as int,
                    hi as int,
                    o,
                ) by {
                assert(objects_under(after, right as int).contains(o as int) <==> in_range(
                    halfway,
                    mid as int,
                    hi as int,
                    o,
                ));
                if in_range(halfway, mid as int, hi as int, o) {
                    let k = choose|k: int| mid <= k < hi && #[trigger] halfway[k] == o;
                    assert(sorted[k] == o);
                }
                if in_range(sorted, mid as int, hi as int, o) {
                    let k = choose|k: int| mid <= k < hi && #[trigger] sorted[k] == o;
                    assert(halfway[k] == o);
                }
            }
            assert forall|o: usize|
                #[trigger] objects_under(nodes@, root as int).contains(o as int) <==> in_range(
                    old(order)@,
                    lo as int,
                    hi as int,
                    o,
                ) by {
                assert(in_range(sorted, lo as int, hi as int, o) <==> in_range(
                    old(order)@,
                    lo as int,
                    hi as int,
                    o,
                ));
                if in_range(sorted, lo as int, hi as int, o) {
                    let k = choose|k: int| lo <= k < hi && #[trigger] sorted[k] == o;
                    if k < mid {
                        assert(in_range(sorted, lo as int, mid as int, o));
                    } else {
                        assert(in_range(sorted, mid as int, hi as int, o));
                    }
                }
                if in_range(sorted, lo as int, mid as int, o) {
                    let k = choose|k: int| lo <= k < mid && #[trigger] sorted[k] == o;
                    assert(in_range(sorted, lo as int, hi as int, o));
                }
                if in_range(sorted, mid as int, hi as int, o) {
                    let k = choose|k: int| mid <= k < hi && #[trigger] sorted[k] == o;
                    assert(in_range(sorted, lo as int, hi as int, o));
                }
            }
            assert(leaves_in_order(nodes@, root as int).to_multiset() == given.subrange(
                lo as int,
                hi as int,
            ).to_multiset()) by {
                let first = sorted.subrange(lo as int, mid as int);
                let second = sorted.subrange(mid as int, hi as int);
                assert(halfway.subrange(mid as int, hi as int) =~= second);
                assert(first + second =~= sorted.subrange(lo as int, hi as int));
                lemma_multiset_commutative(first, second);
                lemma_multiset_commutative(
                    leaves_in_order(nodes@, left as int),
                    leaves_in_order(nodes@, right as int),
                );
            }
            assert(axis == spec_widest_axis(
                boxes@,
                leaves_in_order(nodes@, root as int),
                0,
                leaves_in_order(nodes@, root as int).len() as int,
            )) by {
                let leaves = leaves_in_order(nodes@, root as int);
                same_entries_same_objects(leaves, given, lo as int, hi as int);
                spread_of_same_objects(
                    boxes@,
                    leaves,
                    0,
                    leaves.len() as int,
                    given,
                    lo as int,
                    hi as int,
                    Axis::X,
                );
                spread_of_same_objects(
                    boxes@,
                    leaves,
                    0,
                    leaves.len() as int,
                    given,
                    lo as int,
                    hi as int,
                    Axis::Y,
                );
                spread_of_same_objects(
                    boxes@,
                    leaves,
                    0,
                    leaves.len() as int,
                    given,
                    lo as int,
                    hi as int,
                    Axis::Z,
                );
            }
            assert(node_parts(nodes@, boxes@, root as int)) by {
                assert forall|a: usize, b: usize|
                    #[trigger] objects_under(nodes@, left as int).contains(a as int)
                        && #[trigger] objects_under(nodes@, right as int).contains(
                        b as int,
                    ) implies start_key(boxes@, a, axis) <= start_key(boxes@, b, axis) by {
                    assert(in_range(sorted, lo as int, mid as int, a));
                    assert(in_range(sorted, mid as int, hi as int, b));
                    let i = choose|k: int| lo <= k < mid && #[trigger] sorted[k] == a;
                    let j = choose|k: int| mid <= k < hi && #[trigger] sorted[k] == b;
                    assert(start_key(boxes@, sorted[i], axis) <= start_key(
                        boxes@,
                        sorted[j],
                        axis,
                    ));
                }
            }
            assert forall|i: int| 0 <= i < nodes.len() implies node_wf(nodes@, boxes@, i)
                && node_parts(nodes@, boxes@, i) by {
                if i < after.len() {
                    preserved_by_extension(after, nodes@, boxes@, i);
                }
            }
            assert(leaves_in_order(nodes@, root as int).to_multiset() == old(order)@.subrange(
                lo as int,
                hi as int,
            ).to_multiset()) by {
                let first = sorted.subrange(lo as int, mid as int);
                let second = sorted.subrange(mid as int, hi as int);
                assert(halfway.subrange(mid as int, hi as int) =~= second);
                assert(first + second =~= sorted.subrange(lo as int, hi as int));
                lemma_multiset_commutative(first, second);
                lemma_multiset_commutative(
                    leaves_in_order(nodes@, left as int),
                    leaves_in_order(nodes@, right as int),
                );
            }
        }
        root
    }
}

/// A sound node stays sound when nodes are appended to the list.
proof fn preserved_by_extension(a: Seq<Node>, b: Seq<Node>, boxes: Seq<AABB>, i: int)
    requires
        0 <= i < a.len() <= b.len(),
        forall|j: int| 0 <= j < a.len() ==> a[j] == b[j],
        node_wf(a, boxes, i),
        node_parts(a, boxes, i),
    ensures
        node_wf(b, boxes, i),
        node_parts(b, boxes, i),
{
    match a[i] {
        Node::Leaf { .. } => {},
        Node::Internal { left, right, .. } => {
            subtree_depends_on_prefix(a, b, i);
            subtree_depends_on_prefix(a, b, left as int);
            subtree_depends_on_prefix(a, b, right as int);
        },
    }
}

/// What a search asks of the ray that it follows. Both answers are
/// functions of what is asked; `None` is a miss.
pub trait BVTCostFn {
    /// The distance at which the ray enters the box `bv`.
    spec fn bv_cost(&self, bv: AABB) -> Option<Scalar>;

    /// The distance at which the ray meets object `b`.
    spec fn b_cost(&self, b: usize) -> Option<Scalar>;

    fn compute_bv_cost(&self, bv: &AABB) -> (r: Option<Scalar>)
        ensures
            r == self.bv_cost(*bv),
    ;

    fn compute_b_cost(&self, b: usize) -> (r: Option<Scalar>)
        ensures
            r == self.b_cost(b),
    ;
}

/// A ray of which the distances to the objects are known beforehand, and
/// nothing of the boxes: it counts as entering every box at its origin.
#[derive(Debug)]
pub struct Measured {
    /// For each object the distance at which the ray meets it.
    pub distances: Vec<Option<Scalar>>,
}

impl BVTCostFn for Measured {
    open spec fn bv_cost(&self, bv: AABB) -> Option<Scalar> {
        Some(Scalar::spec_zero())
    }

    open spec fn b_cost(&self, b: usize) -> Option<Scalar> {
        if b < self.distances.len() {
            self.distances[b as int]
        } else {
            None
        }
    }

    fn compute_bv_cost(&self, bv: &AABB) -> (r: Option<Scalar>) {
        Some(Scalar::zero())
    }

    fn compute_b_cost(&self, b: usize) -> (r: Option<Scalar>) {
        if b < self.distances.len() {
            self.distances[b]
        } else {
            None
        }
    }
}

/// Whatever the boxes are, they bound the objects of a measured ray from
/// below, as long as no object lies behind the ray's origin.
pub proof fn measured_is_admissible(cost: &Measured, boxes: Seq<AABB>)
    requires
        forall|o: int|
            0 <= o < cost.distances.len() ==> (#[trigger] cost.distances[o] matches Some(t)
                ==> Scalar::spec_zero()@ <= t@),
    ensures
        admissible(cost, boxes),
{
}

/// The boxes bound the objects from below: a ray that meets object `o` at
/// some distance enters every box that holds `boxes[o]`, and no later.
pub open spec fn admissible<C: BVTCostFn>(cost: &C, boxes: Seq<AABB>) -> bool {
    forall|o: usize, bv: AABB|
        #![trigger cost.b_cost(o), cost.bv_cost(bv)]
        o < boxes.len() && bv.spec_contains(boxes[o as int]) ==> (cost.b_cost(o) matches Some(t)
            ==> (cost.bv_cost(bv) matches Some(s) && s@ <= t@))
}

/// `found` is what an exhaustive scan of the objects `0..n` reports: nothing
/// where the ray meets none of them, else an object that it meets, with the
/// distance, such that it meets no object nearer.
pub open spec fn is_nearest<C: BVTCostFn>(cost: &C, n: int, found: Option<(usize, Scalar)>) -> bool {
    match found {
        None => forall|o: usize| o < n ==> (#[trigger] cost.b_cost(o)).is_none(),
        Some((object, toi)) => {
            &&& object < n
            &&& cost.b_cost(object) == Some(toi)
            &&& forall|o: usize| o < n ==> (#[trigger] cost.b_cost(o) matches Some(t) ==> toi@ <= t@)
        },
    }
}

/// The nearer of the best object found so far and an object just asked
/// about; of two at one distance, the one that comes first in the scene.
pub open spec fn nearer_of(
    best: Option<(usize, Scalar)>,
    object: usize,
    answer: Option<Scalar>,
) -> Option<(usize, Scalar)> {
    match (answer, best) {
        (Some(t), Some((held, b))) => if t@ < b@ || (t@ == b@ && object < held) {
            Some((object, t))
        } else {
            best
        },
        (Some(t), None) => Some((object, t)),
        (None, _) => best,
    }
}

/// The object among the first `n` that the ray meets first, with the
/// distance: of those at the least distance, the one that comes first in the
/// scene. `None` where the ray meets none.
pub open spec fn spec_nearest<C: BVTCostFn>(cost: &C, n: nat) -> Option<(usize, Scalar)>
    decreases n,
{
    if n == 0 {
        None
    } else {
        nearer_of(
            spec_nearest(cost, (n - 1) as nat),
            (n - 1) as usize,
            cost.b_cost((n - 1) as usize),
        )
    }
}

/// `found` is the nearest object, and of the objects at its distance the
/// first.
pub open spec fn is_first_nearest<C: BVTCostFn>(
    cost: &C,
    n: int,
    found: Option<(usize, Scalar)>,
) -> bool {
    &&& is_nearest(cost, n, found)
    &&& found matches Some((object, toi)) ==> forall|o: usize|
        o < object ==> (#[trigger] cost.b_cost(o) matches Some(t) ==> toi@ < t@)
}

/// `spec_nearest` names the nearest object, and of the objects at its
/// distance the first.
pub proof fn nearest_is_first_nearest<C: BVTCostFn>(cost: &C, n: nat)
    requires
        n <= usize::MAX,
    ensures
        is_first_nearest(cost, n as int, spec_nearest(cost, n)),
    decreases n,
{
    if n > 0 {
        nearest_is_first_nearest(cost, (n - 1) as nat);
    }
}

/// There is one first nearest object: two answers that both name it are one
/// answer.
pub proof fn first_nearest_is_one<C: BVTCostFn>(
    cost: &C,
    n: int,
    first: Option<(usize, Scalar)>,
    second: Option<(usize, Scalar)>,
)
    requires
        is_first_nearest(cost, n, first),
        is_first_nearest(cost, n, second),
    ensures
        first == second,
{
    nearest_is_determined(cost, n, first, second);
    if let (Some((a, s)), Some((b, t))) = (first, second) {
        assert(cost.b_cost(a) == Some(s));
        assert(cost.b_cost(b) == Some(t));
    }
}

/// The best object found so far settles object `o`, which the ray meets at
/// `t`: it is nearer, or at the same distance and no later in the scene.
spec fn settles(best: Option<(usize, Scalar)>, o: usize, t: Scalar) -> bool {
    best matches Some((held, b)) && (b@ < t@ || (b@ == t@ && held <= o))
}

/// In a sound tree the box of a node holds the box of every object under
/// that node.
pub proof fn node_holds_its_objects(nodes: Seq<Node>, boxes: Seq<AABB>, x: int, o: int)
    requires
        0 <= x < nodes.len(),
        forall|i: int| 0 <= i < nodes.len() ==> node_wf(nodes, boxes, i),
        objects_under(nodes, x).contains(o),
    ensures
        0 <= o < boxes.len(),
        nodes[x].spec_bv().spec_contains(boxes[o]),
    decreases x,
{
    assert(node_wf(nodes, boxes, x));
    match nodes[x] {
        Node::Leaf { .. } => {},
        Node::Internal { bv, left, right, .. } => {
            let child = if objects_under(nodes, left as int).contains(o) {
                left
            } else {
                right
            };
            node_holds_its_objects(nodes, boxes, child as int, o);
            assert(bv.spec_contains(nodes[child as int].spec_bv()));
        },
    }
}

/// `admissible`, kept out of sight while a search is verified.
#[verifier::opaque]
spec fn bounded_below<C: BVTCostFn>(cost: &C, boxes: Seq<AABB>) -> bool {
    admissible(cost, boxes)
}

/// Where the boxes bound the objects from below, a ray that meets an
/// object has entered, no later, the box of every node above that object.
proof fn node_bounds_its_objects<C: BVTCostFn>(
    cost: &C,
    nodes: Seq<Node>,
    boxes: Seq<AABB>,
    x: int,
    o: usize,
)
    requires
        bounded_below(cost, boxes),
        0 <= x < nodes.len(),
        forall|i: int| 0 <= i < nodes.len() ==> node_wf(nodes, boxes, i),
        objects_under(nodes, x).contains(o as int),
        cost.b_cost(o).is_some(),
    ensures
        o < boxes.len(),
        cost.bv_cost(nodes[x].spec_bv()) matches Some(s) && s@ <= cost.b_cost(o).unwrap()@,
{
    reveal(bounded_below);
    node_holds_its_objects(nodes, boxes, x, o as int);
}

/// The best object found so far is an object of the scene that the ray meets
/// at the distance noted.
spec fn best_is_met<C: BVTCostFn>(cost: &C, n: int, best: Option<(usize, Scalar)>) -> bool {
    best matches Some((object, toi)) ==> object < n && cost.b_cost(object) == Some(toi)
}

/// Whether the subtree under a node is worth a place in the queue: the ray
/// enters its box, and no later than it meets the best object found so far.
spec fn worth_a_visit(entered: Option<Scalar>, best: Option<(usize, Scalar)>) -> bool {
    match (entered, best) {
        (Some(c), Some((_, b))) => c@ <= b@,
        (Some(_), None) => true,
        (None, _) => false,
    }
}

impl BVT {
    /// What waits in the queue of a search is sound: every entry is a node
    /// of the tree, with the distance at which the ray enters its box.
    #[verifier::opaque]
    spec fn search_pending<C: BVTCostFn>(&self, cost: &C, queue: Seq<Pending>) -> bool {
        forall|x: Pending| #[trigger]
            queue.contains(x) ==> x.node < self.nodes.len() && cost.bv_cost(
                self.nodes[x.node as int].spec_bv(),
            ) == Some(x.cost)
    }

    /// While a search runs, every object that the ray meets is either no
    /// nearer than the best one found, or under a subtree that waits.
    #[verifier::opaque]
    spec fn search_covers<C: BVTCostFn>(
        &self,
        cost: &C,
        queue: Seq<Pending>,
        best: Option<(usize, Scalar)>,
    ) -> bool {
        forall|o: usize|
            o < self.boxes.len() ==> (#[trigger] cost.b_cost(o) matches Some(t) ==> {
                ||| settles(best, o, t)
                ||| exists|x: Pending| #[trigger]
                    queue.contains(x) && objects_under(self.nodes@, x.node as int).contains(
                        o as int,
                    )
            })
    }

    /// A search starts sound with the root in its queue, if the ray enters
    /// the root's box, and with an empty queue if not.
    proof fn search_starts<C: BVTCostFn>(&self, cost: &C, queue: Seq<Pending>)
        requires
            self.wf(),
            self.nodes.len() > 0,
            match cost.bv_cost(self.nodes[self.nodes.len() - 1].spec_bv()) {
                Some(c) => forall|x: Pending|
                    queue.contains(x) <==> x == (Pending {
                        cost: c,
                        node: (self.nodes.len() - 1) as usize,
                    }),
                None => queue.len() == 0,
            },
        ensures
            self.search_pending(cost, queue),
            bounded_below(cost, self.boxes@) ==> self.search_covers(cost, queue, None),
    {
        reveal(BVT::search_pending);
        reveal(BVT::search_covers);
        let root = self.nodes.len() - 1;
        if bounded_below(cost, self.boxes@) {
            assert forall|o: usize| o < self.boxes.len() implies (#[trigger] cost.b_cost(o)
                matches Some(t) ==> exists|x: Pending| #[trigger]
                queue.contains(x) && objects_under(self.nodes@, x.node as int).contains(
                    o as int,
                )) by {
                if cost.b_cost(o).is_some() {
                    assert(objects_under(self.nodes@, root).contains(o as int));
                    node_bounds_its_objects(cost, self.nodes@, self.boxes@, root, o);
                    let first = Pending {
                        cost: cost.bv_cost(self.nodes[root].spec_bv()).unwrap(),
                        node: root as usize,
                    };
                    assert(queue.contains(first));
                }
            }
        }
    }

    /// A search whose queue is empty has found the nearest object.
    proof fn search_ends_exhausted<C: BVTCostFn>(
        &self,
        cost: &C,
        queue: Seq<Pending>,
        best: Option<(usize, Scalar)>,
    )
        requires
            queue.len() == 0,
            self.search_covers(cost, queue, best),
            best_is_met(cost, self.boxes.len() as int, best),
        ensures
            is_first_nearest(cost, self.boxes.len() as int, best),
    {
        reveal(BVT::search_covers);
        assert forall|o: usize| o < self.boxes.len() implies (#[trigger] cost.b_cost(o)
            matches Some(t) ==> settles(best, o, t)) by {
            if cost.b_cost(o) matches Some(t) && !settles(best, o, t) {
                let x = choose|x: Pending| #[trigger]
                    queue.contains(x) && objects_under(self.nodes@, x.node as int).contains(
                        o as int,
                    );
                assert(queue.contains(x));
            }
        }
    }

    /// A search has found the nearest object once the ray enters no box that
    /// waits sooner than it meets the best object found.
    proof fn search_ends_beaten<C: BVTCostFn>(
        &self,
        cost: &C,
        queue: Seq<Pending>,
        entry: Pending,
        best: Option<(usize, Scalar)>,
    )
        requires
            self.wf(),
            bounded_below(cost, self.boxes@),
            self.search_pending(cost, queue),
            self.search_covers(cost, queue, best),
            best_is_met(cost, self.boxes.len() as int, best),
            forall|x: Pending| queue.contains(x) ==> entry.cost@ <= x.cost@,
            best matches Some((_, b)) && b@ < entry.cost@,
        ensures
            is_first_nearest(cost, self.boxes.len() as int, best),
    {
        reveal(BVT::search_pending);
        reveal(BVT::search_covers);
        assert forall|o: usize| o < self.boxes.len() implies (#[trigger] cost.b_cost(o)
            matches Some(t) ==> settles(best, o, t)) by {
            if cost.b_cost(o) matches Some(t) && !settles(best, o, t) {
                let x = choose|x: Pending| #[trigger]
                    queue.contains(x) && objects_under(self.nodes@, x.node as int).contains(
                        o as int,
                    );
                node_bounds_its_objects(cost, self.nodes@, self.boxes@, x.node as int, o);
                assert(entry.cost@ <= x.cost@);
            }
        }
    }

    /// A search stays sound when a leaf leaves the queue and its object is
    /// asked about.
    proof fn search_passes_leaf<C: BVTCostFn>(
        &self,
        cost: &C,
        before: Seq<Pending>,
        after: Seq<Pending>,
        entry: Pending,
        best: Option<(usize, Scalar)>,
    )
        requires
            self.wf(),
            self.search_pending(cost, before),
            best_is_met(cost, self.boxes.len() as int, best),
            before.contains(entry),
            forall|x: Pending| after.contains(x) ==> before.contains(x),
            forall|x: Pending| before.contains(x) ==> x == entry || after.contains(x),
            entry.node < self.nodes.len(),
            self.nodes[entry.node as int] is Leaf,
        ensures
            self.search_pending(cost, after),
            self.nodes[entry.node as int]->Leaf_object < self.boxes.len(),
            best_is_met(
                cost,
                self.boxes.len() as int,
                nearer_of(
                    best,
                    self.nodes[entry.node as int]->Leaf_object,
                    cost.b_cost(self.nodes[entry.node as int]->Leaf_object),
                ),
            ),
            self.search_covers(cost, before, best) ==> self.search_covers(
                cost,
                after,
                nearer_of(
                    best,
                    self.nodes[entry.node as int]->Leaf_object,
                    cost.b_cost(self.nodes[entry.node as int]->Leaf_object),
                ),
            ),
    {
        reveal(BVT::search_pending);
        reveal(BVT::search_covers);
        let object = self.nodes[entry.node as int]->Leaf_object;
        let next = nearer_of(best, object, cost.b_cost(object));
        assert(node_wf(self.nodes@, self.boxes@, entry.node as int));
        if self.search_covers(cost, before, best) {
            assert forall|o: usize| o < self.boxes.len() implies (#[trigger] cost.b_cost(o)
                matches Some(t) ==> {
                ||| settles(next, o, t)
                ||| exists|x: Pending| #[trigger]
                    after.contains(x) && objects_under(self.nodes@, x.node as int).contains(
                        o as int,
                    )
            }) by {
                if cost.b_cost(o) matches Some(t) && !settles(best, o, t) {
                    let x = choose|x: Pending| #[trigger]
                        before.contains(x) && objects_under(self.nodes@, x.node as int).contains(
                            o as int,
                        );
                    if x != entry {
                        assert(after.contains(x));
                    }
                }
            }
        }
    }

    /// A search stays sound when an inner node leaves the queue and those of
    /// its children enter that are worth a visit.
    proof fn search_passes_inner<C: BVTCostFn>(
        &self,
        cost: &C,
        before: Seq<Pending>,
        after: Seq<Pending>,
        entry: Pending,
        best: Option<(usize, Scalar)>,
    )
        requires
            self.wf(),
            self.search_pending(cost, before),
            before.contains(entry),
            entry.node < self.nodes.len(),
            self.nodes[entry.node as int] is Internal,
            ({
                let left = self.nodes[entry.node as int]->Internal_left;
                let right = self.nodes[entry.node as int]->Internal_right;
                let left_cost = cost.bv_cost(self.nodes[left as int].spec_bv());
                let right_cost = cost.bv_cost(self.nodes[right as int].spec_bv());
                let left_child = Pending { cost: left_cost.unwrap(), node: left };
                let right_child = Pending { cost: right_cost.unwrap(), node: right };
                &&& forall|x: Pending|
                    after.contains(x) ==> {
                        ||| before.contains(x)
                        ||| (worth_a_visit(left_cost, best) && x == left_child)
                        ||| (worth_a_visit(right_cost, best) && x == right_child)
                    }
                &&& forall|x: Pending| before.contains(x) ==> x == entry || after.contains(x)
                &&& worth_a_visit(left_cost, best) ==> after.contains(left_child)
                &&& worth_a_visit(right_cost, best) ==> after.contains(right_child)
            }),
        ensures
            self.search_pending(cost, after),
            bounded_below(cost, self.boxes@) && self.search_covers(cost, before, best)
                ==> self.search_covers(cost, after, best),
    {
        reveal(BVT::search_pending);
        reveal(BVT::search_covers);
        assert(node_wf(self.nodes@, self.boxes@, entry.node as int));
        let left = self.nodes[entry.node as int]->Internal_left;
        let right = self.nodes[entry.node as int]->Internal_right;
        let left_cost = cost.bv_cost(self.nodes[left as int].spec_bv());
        let right_cost = cost.bv_cost(self.nodes[right as int].spec_bv());
        if bounded_below(cost, self.boxes@) && self.search_covers(cost, before, best) {
            assert forall|o: usize| o < self.boxes.len() implies (#[trigger] cost.b_cost(o)
                matches Some(t) ==> {
                ||| settles(best, o, t)
                ||| exists|x: Pending| #[trigger]
                    after.contains(x) && objects_under(self.nodes@, x.node as int).contains(
                        o as int,
                    )
            }) by {
                if cost.b_cost(o) matches Some(t) && !settles(best, o, t) {
                    let x = choose|x: Pending| #[trigger]
                        before.contains(x) && objects_under(self.nodes@, x.node as int).contains(
                            o as int,
                        );
                    if x != entry {
                        assert(after.contains(x));
                    } else if objects_under(self.nodes@, left as int).contains(o as int) {
                        node_bounds_its_objects(cost, self.nodes@, self.boxes@, left as int, o);
                        let child = Pending { cost: left_cost.unwrap(), node: left };
                        assert(worth_a_visit(left_cost, best));
                        assert(after.contains(child));
                    } else {
                        node_bounds_its_objects(cost, self.nodes@, self.boxes@, right as int, o);
                        let child = Pending { cost: right_cost.unwrap(), node: right };
                        assert(worth_a_visit(right_cost, best));
                        assert(after.contains(child));
                    }
                }
            }
        }
    }

    /// The object that the ray meets first, with the distance, or `None`
    /// where it meets none.
    ///
    /// Subtrees are visited in the order in which the ray enters their
    /// boxes, and one that the ray misses, or enters later than it meets the
    /// best object found, is left out. Whatever the boxes are, an object
    /// that is returned is met at the distance returned. Where the boxes
    /// bound the objects from below, the result is that of an exhaustive
    /// scan: the nearest object, and of several at one distance the one
    /// that comes first in the scene.
    pub fn best_first_search<C: BVTCostFn>(&self, cost: &C) -> (found: Option<(usize, Scalar)>)
        requires
            self.wf(),
        ensures
            found matches Some((object, toi)) ==> object < self.boxes.len() && cost.b_cost(object)
                == Some(toi),
            admissible(cost, self.boxes@) ==> found == spec_nearest(cost, self.boxes.len() as nat),
            admissible(cost, self.boxes@) ==> is_nearest(cost, self.boxes.len() as int, found),
            self.boxes.len() == 0 ==> found.is_none(),
    {
        let mut best: Option<(usize, Scalar)> = None;
        let mut queue: Queue = Queue::new();
        if self.nodes.len() == 0 {
            return None;
        }
        let ghost adm = bounded_below(cost, self.boxes@);
        proof {
            assert(adm == admissible(cost, self.boxes@)) by {
                reveal(bounded_below);
            }
        }
        let root: usize = self.nodes.len() - 1;
        match cost.compute_bv_cost(&self.nodes[root].bv()) {
            Some(c) => {
                queue.push(Pending { cost: c, node: root });
            },
            None => {},
        }
        proof {
            self.search_starts(cost, queue@);
        }
        let mut done: bool = false;
        while !done
            invariant
                self.wf(),
                queue.wf(),
                adm == bounded_below(cost, self.boxes@),
                self.search_pending(cost, queue@),
                best_is_met(cost, self.boxes.len() as int, best),
                adm ==> self.search_covers(cost, queue@, best),
                done && adm ==> is_first_nearest(cost, self.boxes.len() as int, best),
            decreases (if done { 0int } else { 1int }), pending_weight(self.nodes@, queue@),
        {
            let ghost before = queue@;
            match queue.pop() {
                None => {
                    done = true;
                    proof {
                        if adm {
                            self.search_ends_exhausted(cost, before, best);
                        }
                    }
                },
                Some(entry) => {
                    let ghost after_pop = queue@;
                    proof {
                        assert(before.contains(entry));
                        assert(entry.node < self.nodes.len()) by {
                            reveal(BVT::search_pending);
                        }
                        assert(pending_weight(self.nodes@, after_pop) + nodes_under(
                            self.nodes@,
                            entry.node as int,
                        ) == pending_weight(self.nodes@, before));
                        assert(node_wf(self.nodes@, self.boxes@, entry.node as int));
                    }
                    let beaten: bool = match best {
                        Some((_, b)) => b.lt(&entry.cost),
                        None => false,
                    };
                    if beaten {
                        done = true;
                        proof {
                            if adm {
                                self.search_ends_beaten(cost, before, entry, best);
                                assert(self.search_covers(cost, after_pop, best)) by {
                                    reveal(BVT::search_covers);
                                }
                            }
                            assert(self.search_pending(cost, after_pop)) by {
                                reveal(BVT::search_pending);
                            }
                        }
                    } else {
                        match self.nodes[entry.node] {
                            Node::Leaf { object, .. } => {
                                proof {
                                    self.search_passes_leaf(cost, before, after_pop, entry, best);
                                    assert(nodes_under(self.nodes@, entry.node as int) == 1);
                                }
                                match cost.compute_b_cost(object) {
                                    Some(t) => {
                                        let nearer: bool = match best {
                                            Some((held, b)) => t.lt(&b) || (t == b && object
                                                < held),
                                            None => true,
                                        };
                                        if nearer {
                                            best = Some((object, t));
                                        }
                                    },
                                    None => {},
                                }
                            },
                            Node::Internal { left, right, .. } => {
                                let left_cost: Option<Scalar> = cost.compute_bv_cost(
                                    &self.nodes[left].bv(),
                                );
                                let keep_left: bool = match (left_cost, best) {
                                    (Some(c), Some((_, b))) => c.le(&b),
                                    (Some(_), None) => true,
                                    (None, _) => false,
                                };
                                if keep_left {
                                    queue.push(Pending { cost: left_cost.unwrap(), node: left });
                                }
                                let ghost mid_queue = queue@;
                                let right_cost: Option<Scalar> = cost.compute_bv_cost(
                                    &self.nodes[right].bv(),
                                );
                                let keep_right: bool = match (right_cost, best) {
                                    (Some(c), Some((_, b))) => c.le(&b),
                                    (Some(_), None) => true,
                                    (None, _) => false,
                                };
                                if keep_right {
                                    queue.push(Pending { cost: right_cost.unwrap(), node: right });
                                }
                                proof {
                                    assert(nodes_under(self.nodes@, entry.node as int) == 1
                                        + nodes_under(self.nodes@, left as int) + nodes_under(
                                        self.nodes@,
                                        right as int,
                                    ));
                                    assert(pending_weight(self.nodes@, mid_queue)
                                        == pending_weight(self.nodes@, after_pop) + if keep_left {
                                        nodes_under(self.nodes@, left as int)
                                    } else {
                                        0
                                    });
                                    assert(pending_weight(self.nodes@, queue@) == pending_weight(
                                        self.nodes@,
                                        mid_queue,
                                    ) + if keep_right {
                                        nodes_under(self.nodes@, right as int)
                                    } else {
                                        0
                                    });
                                    let left_child = Pending {
                                        cost: left_cost.unwrap(),
                                        node: left,
                                    };
                                    let right_child = Pending {
                                        cost: right_cost.unwrap(),
                                        node: right,
                                    };
                                    assert forall|x: Pending| queue@.contains(x) implies {
                                        ||| before.contains(x)
                                        ||| (worth_a_visit(left_cost, best) && x == left_child)
                                        ||| (worth_a_visit(right_cost, best) && x == right_child)
                                    } by {
                                        if mid_queue.contains(x) && after_pop.contains(x) {
                                            assert(before.contains(x));
                                        }
                                    }
                                    assert forall|x: Pending|
                                        before.contains(x) implies x == entry || queue@.contains(
                                        x,
                                    ) by {
                                        if x != entry {
                                            assert(after_pop.contains(x));
                                            assert(mid_queue.contains(x));
                                        }
                                    }
                                    if keep_left {
                                        assert(mid_queue.contains(left_child));
                                        assert(queue@.contains(left_child));
                                    }
                                    if keep_right {
                                        assert(queue@.contains(right_child));
                                    }
                                    self.search_passes_inner(cost, before, queue@, entry, best);
                                }
                            },
                        }
                    }
                },
            }
        }
        proof {
            if adm {
                nearest_is_first_nearest(cost, self.boxes.len() as nat);
                first_nearest_is_one(
                    cost,
                    self.boxes.len() as int,
                    best,
                    spec_nearest(cost, self.boxes.len() as nat),
                );
            }
        }
        best
    }
}

/// The object among `0..n` that the ray meets first, found by asking every
/// one of them. Of objects at one distance the first is returned.
pub fn linear_search<C: BVTCostFn>(n: usize, cost: &C) -> (found: Option<(usize, Scalar)>)
    ensures
        found == spec_nearest(cost, n as nat),
        is_first_nearest(cost, n as int, found),
{
    let mut best: Option<(usize, Scalar)> = None;
    let mut o: usize = 0;
    while o < n
        invariant
            o <= n,
            best == spec_nearest(cost, o as nat),
            best matches Some((object, _)) ==> object < o,
        decreases n - o,
    {
        match cost.compute_b_cost(o) {
            Some(t) => {
                let nearer: bool = match best {
                    Some((_, b)) => t.lt(&b),
                    None => true,
                };
                if nearer {
                    best = Some((o, t));
                }
            },
            None => {},
        }
        o = o + 1;
    }
    proof {
        nearest_is_first_nearest(cost, n as nat);
    }
    best
}

/// Two answers to "which of the objects `0..n` does the ray meet first" agree
/// on whether there is one and on the distance. They name the same object
/// unless the ray meets two objects at that distance.
pub proof fn nearest_is_determined<C: BVTCostFn>(
    cost: &C,
    n: int,
    first: Option<(usize, Scalar)>,
    second: Option<(usize, Scalar)>,
)
    requires
        is_nearest(cost, n, first),
        is_nearest(cost, n, second),
    ensures
        first.is_some() == second.is_some(),
        first matches Some((a, s)) ==> second matches Some((b, t)) && s == t && (a == b
            || cost.b_cost(a) == cost.b_cost(b)),
{
    match (first, second) {
        (Some((a, s)), Some((b, t))) => {
            assert(cost.b_cost(a) == Some(s));
            assert(cost.b_cost(b) == Some(t));
            assert(s@ <= t@ && t@ <= s@);
        },
        (Some((a, s)), None) => {
            assert(cost.b_cost(a) == Some(s));
        },
        (None, Some((b, t))) => {
            assert(cost.b_cost(b) == Some(t));
        },
        (None, None) => {},
    }
}

/// Searching the tree gives what scanning every object gives: where the
/// boxes bound the objects from below, what `best_first_search` returns and
/// what `linear_search` returns are the same object at the same distance,
/// or both nothing.
pub proof fn search_agrees_with_scan<C: BVTCostFn>(
    tree: &BVT,
    cost: &C,
    searched: Option<(usize, Scalar)>,
    scanned: Option<(usize, Scalar)>,
)
    requires
        tree.wf(),
        admissible(cost, tree.boxes@),
        searched == spec_nearest(cost, tree.boxes.len() as nat),
        scanned == spec_nearest(cost, tree.boxes.len() as nat),
    ensures
        searched == scanned,
        is_first_nearest(cost, tree.boxes.len() as int, searched),
{
    nearest_is_first_nearest(cost, tree.boxes.len() as nat);
}

/// The objects that a visitor comes to who goes down from node `x` and
/// passes an inner node only where the ray enters the node's box, in the
/// order in which it comes to them.
pub open spec fn visited<C: BVTCostFn>(nodes: Seq<Node>, cost: &C, x: int) -> Seq<usize>
    decreases x,
{
    if x < 0 || x >= nodes.len() {
        Seq::empty()
    } else {
        match nodes[x] {
            Node::Leaf { object, .. } => seq![object],
            Node::Internal { bv, left, right, .. } => if left < x && right < x && cost.bv_cost(
                bv,
            ).is_some() {
                visited(nodes, cost, left as int) + visited(nodes, cost, right as int)
            } else {
                Seq::empty()
            },
        }
    }
}

/// Where the boxes bound the objects from below, a visitor comes to every
/// object that the ray meets.
pub proof fn visitor_misses_nothing<C: BVTCostFn>(
    cost: &C,
    nodes: Seq<Node>,
    boxes: Seq<AABB>,
    x: int,
    o: usize,
)
    requires
        admissible(cost, boxes),
        0 <= x < nodes.len(),
        forall|i: int| 0 <= i < nodes.len() ==> node_wf(nodes, boxes, i),
        objects_under(nodes, x).contains(o as int),
        cost.b_cost(o).is_some(),
    ensures
        visited(nodes, cost, x).contains(o),
    decreases x,
{
    assert(node_wf(nodes, boxes, x));
    match nodes[x] {
        Node::Leaf { object, .. } => {
            assert(visited(nodes, cost, x)[0] == o);
        },
        Node::Internal { bv, left, right, .. } => {
            node_holds_its_objects(nodes, boxes, x, o as int);
            assert(cost.bv_cost(bv).is_some());
            let first = visited(nodes, cost, left as int);
            let second = visited(nodes, cost, right as int);
            if objects_under(nodes, left as int).contains(o as int) {
                visitor_misses_nothing(cost, nodes, boxes, left as int, o);
                let k = choose|k: int| 0 <= k < first.len() && first[k] == o;
                assert((first + second)[k] == o);
            } else {
                visitor_misses_nothing(cost, nodes, boxes, right as int, o);
                let k = choose|k: int| 0 <= k < second.len() && second[k] == o;
                assert((first + second)[first.len() + k] == o);
            }
        },
    }
}

/// A visitor comes only to objects of the scene.
pub proof fn visitor_stays_in_scene<C: BVTCostFn>(
    cost: &C,
    nodes: Seq<Node>,
    boxes: Seq<AABB>,
    x: int,
)
    requires
        0 <= x < nodes.len(),
        forall|i: int| 0 <= i < nodes.len() ==> node_wf(nodes, boxes, i),
    ensures
        forall|k: int|
            0 <= k < visited(nodes, cost, x).len() ==> #[trigger] visited(nodes, cost, x)[k]
                < boxes.len(),
    decreases x,
{
    assert(node_wf(nodes, boxes, x));
    match nodes[x] {
        Node::Leaf { .. } => {},
        Node::Internal { left, right, .. } => {
            visitor_stays_in_scene(cost, nodes, boxes, left as int);
            visitor_stays_in_scene(cost, nodes, boxes, right as int);
            let first = visited(nodes, cost, left as int);
            let second = visited(nodes, cost, right as int);
            assert forall|k: int| 0 <= k < visited(nodes, cost, x).len() implies #[trigger] visited(
                nodes,
                cost,
                x,
            )[k] < boxes.len() by {
                if k < first.len() {
                    assert((first + second)[k] == first[k]);
                } else {
                    assert((first + second)[k] == second[k - first.len()]);
                }
            }
        },
    }
}

impl BVT {
    /// What `visit` returns.
    pub open spec fn spec_visit<C: BVTCostFn>(&self, cost: &C) -> Seq<usize> {
        visited(self.nodes@, cost, self.nodes.len() - 1)
    }

    /// The objects that a visitor comes to who goes down from the root and
    /// passes an inner node only where the ray enters the node's box: the
    /// objects that the ray may meet.
    pub fn visit<C: BVTCostFn>(&self, cost: &C) -> (reached: Vec<usize>)
        requires
            self.wf(),
        ensures
            reached@ == self.spec_visit(cost),
            forall|k: int| 0 <= k < reached.len() ==> #[trigger] reached[k] < self.boxes.len(),
            admissible(cost, self.boxes@) ==> forall|o: usize|
                o < self.boxes.len() && (#[trigger] cost.b_cost(o)).is_some() ==> reached@.contains(
                    o,
                ),
    {
        let mut reached: Vec<usize> = Vec::new();
        if self.nodes.len() > 0 {
            self.visit_node(cost, self.nodes.len() - 1, &mut reached);
            proof {
                assert(reached@ =~= self.spec_visit(cost));
                visitor_stays_in_scene(cost, self.nodes@, self.boxes@, self.nodes.len() - 1);
                if admissible(cost, self.boxes@) {
                    assert forall|o: usize|
                        o < self.boxes.len() && (#[trigger] cost.b_cost(
                            o,
                        )).is_some() implies reached@.contains(o) by {
                        assert(objects_under(self.nodes@, self.nodes.len() - 1).contains(
                            o as int,
                        ));
                        visitor_misses_nothing(
                            cost,
                            self.nodes@,
                            self.boxes@,
                            self.nodes.len() - 1,
                            o,
                        );
                    }
                }
            }
        }
        reached
    }

    fn visit_node<C: BVTCostFn>(&self, cost: &C, x: usize, reached: &mut Vec<usize>)
        requires
            self.wf(),
            x < self.nodes.len(),
        ensures
            final(reached)@ == old(reached)@ + visited(self.nodes@, cost, x as int),
        decreases x,
    {
        proof {
            assert(node_wf(self.nodes@, self.boxes@, x as int));
        }
        match self.nodes[x] {
            Node::Leaf { object, .. } => {
                reached.push(object);
                proof {
                    assert(reached@ =~= old(reached)@ + seq![object]);
                }
            },
            Node::Internal { bv, left, right, .. } => {
                if cost.compute_bv_cost(&bv).is_some() {
                    self.visit_node(cost, left, reached);
                    self.visit_node(cost, right, reached);
                    proof {
                        assert(reached@ =~= old(reached)@ + (visited(
                            self.nodes@,
                            cost,
                            left as int,
                        ) + visited(self.nodes@, cost, right as int)));
                    }
                } else {
                    proof {
                        assert(reached@ =~= old(reached)@ + Seq::<usize>::empty());
                    }
                }
            },
        }
    }
}

} // verus!
