use in1weekend::aabb::AABB;
use in1weekend::bvt::{linear_search, BVTCostFn, Measured, Node, BVT};
use in1weekend::partition::{sort_range, widest_axis};
use in1weekend::queue::{Pending, Queue};
use in1weekend::scalar::Scalar;
use in1weekend::space::{Axis, Point};

fn s(x: f32) -> Scalar {
    Scalar::from_bits(x.to_bits()).unwrap()
}

fn value(s: Scalar) -> f32 {
    f32::from_bits(s.to_bits())
}

fn cube(cx: f32, cy: f32, cz: f32, half: f32) -> AABB {
    AABB::new(
        Point { x: s(cx - half), y: s(cy - half), z: s(cz - half) },
        Point { x: s(cx + half), y: s(cy + half), z: s(cz + half) },
    )
    .unwrap()
}

/// Where the ray from `origin` along `dir` enters a box, by the slab method.
fn enter(origin: [f32; 3], dir: [f32; 3], bv: &AABB) -> Option<Scalar> {
    let mins = [value(bv.mins.x), value(bv.mins.y), value(bv.mins.z)];
    let maxs = [value(bv.maxs.x), value(bv.maxs.y), value(bv.maxs.z)];
    let mut near = 0.0f32;
    let mut far = f32::INFINITY;
    for axis in 0..3 {
        if dir[axis] == 0.0 {
            if origin[axis] < mins[axis] || origin[axis] > maxs[axis] {
                return None;
            }
        } else {
            let a = (mins[axis] - origin[axis]) / dir[axis];
            let b = (maxs[axis] - origin[axis]) / dir[axis];
            near = near.max(a.min(b));
            far = far.min(a.max(b));
        }
    }
    if near <= far {
        Some(s(near))
    } else {
        None
    }
}

/// A ray among cubes, each of which is the object in its own box.
struct Caster {
    origin: [f32; 3],
    dir: [f32; 3],
    boxes: Vec<AABB>,
}

impl BVTCostFn for Caster {
    fn bv_cost(&self, bv: AABB) -> Option<Scalar> {
        enter(self.origin, self.dir, &bv)
    }

    fn b_cost(&self, b: usize) -> Option<Scalar> {
        enter(self.origin, self.dir, &self.boxes[b])
    }

    fn compute_bv_cost(&self, bv: &AABB) -> Option<Scalar> {
        self.bv_cost(*bv)
    }

    fn compute_b_cost(&self, b: usize) -> Option<Scalar> {
        self.b_cost(b)
    }
}

fn along_x(boxes: &[AABB]) -> Caster {
    Caster { origin: [0.0, 0.0, 0.0], dir: [1.0, 0.0, 0.0], boxes: boxes.to_vec() }
}

/// A small generator, so that the scenes are the same at every run.
struct Lcg(u64);

impl Lcg {
    fn next(&mut self) -> f32 {
        self.0 = self.0.wrapping_mul(6364136223846793005).wrapping_add(1442695040888963407);
        ((self.0 >> 40) as f32) / ((1u64 << 24) as f32)
    }

    fn between(&mut self, low: f32, high: f32) -> f32 {
        low + (high - low) * self.next()
    }
}

#[test]
fn empty_tree_reports_no_hit() {
    let tree = BVT::new_balanced(Vec::new());
    assert_eq!(tree.len(), 0);
    assert!(tree.nodes.is_empty());
    let ray = along_x(&[]);
    assert!(tree.best_first_search(&ray).is_none());
    assert!(linear_search(0, &ray).is_none());
}

#[test]
fn search_finds_the_nearest_cube() {
    let boxes = vec![
        cube(9.0, 0.0, 0.0, 1.0),
        cube(4.0, 0.0, 0.0, 1.0),
        cube(2.0, 5.0, 0.0, 1.0),
        cube(6.0, 0.5, 0.0, 1.0),
        cube(-7.0, 0.0, 0.0, 1.0),
    ];
    let ray = along_x(&boxes);
    let tree = BVT::new_balanced(boxes);
    let (object, toi) = tree.best_first_search(&ray).unwrap();
    assert_eq!(object, 1);
    assert_eq!(value(toi), 3.0);
    let (scanned, scanned_toi) = linear_search(5, &ray).unwrap();
    assert_eq!(scanned, 1);
    assert_eq!(value(scanned_toi), 3.0);
}

#[test]
fn a_ray_that_meets_nothing_finds_nothing() {
    let boxes = vec![cube(4.0, 0.0, 0.0, 1.0), cube(0.0, 6.0, 0.0, 1.0), cube(3.0, 3.0, 3.0, 0.5)];
    let ray = Caster { origin: [0.0, 0.0, 0.0], dir: [-1.0, 0.0, 0.0], boxes: boxes.clone() };
    let tree = BVT::new_balanced(boxes);
    assert!(tree.best_first_search(&ray).is_none());
    assert!(linear_search(3, &ray).is_none());
}

#[test]
fn a_single_object_is_a_single_leaf() {
    let boxes = vec![cube(4.0, 0.0, 0.0, 1.0)];
    let tree = BVT::new_balanced(boxes.clone());
    assert_eq!(tree.nodes.len(), 1);
    assert!(matches!(tree.nodes[0], Node::Leaf { object: 0, .. }));
    assert_eq!(tree.bounding_volume(0), Some(boxes[0]));
    assert_eq!(tree.bounding_volume(1), None);
}

#[test]
fn the_tree_is_balanced_and_its_boxes_nest() {
    let mut rng = Lcg(7);
    for n in 1..40usize {
        let boxes: Vec<AABB> = (0..n)
            .map(|_| {
                cube(
                    rng.between(-20.0, 20.0),
                    rng.between(-20.0, 20.0),
                    rng.between(-20.0, 20.0),
                    rng.between(0.1, 3.0),
                )
            })
            .collect();
        let tree = BVT::new_balanced(boxes.clone());
        assert_eq!(tree.nodes.len(), 2 * n - 1);
        let mut leaves = vec![0usize; tree.nodes.len()];
        let mut under: Vec<Vec<usize>> = vec![Vec::new(); tree.nodes.len()];
        let mut seen = vec![false; n];
        for (i, node) in tree.nodes.iter().enumerate() {
            match *node {
                Node::Leaf { bv, object } => {
                    assert_eq!(bv, boxes[object]);
                    assert!(!seen[object]);
                    seen[object] = true;
                    leaves[i] = 1;
                    under[i] = vec![object];
                }
                Node::Internal { bv, left, right, axis } => {
                    for &a in &under[left] {
                        for &b in &under[right] {
                            assert!(boxes[a].mins.along(axis).le(&boxes[b].mins.along(axis)));
                        }
                    }
                    under[i] = under[left].iter().chain(under[right].iter()).copied().collect();
                    assert_eq!(axis, widest_axis(&boxes, &under[i], 0, under[i].len()));
                    assert!(left < i && right < i);
                    assert!(bv.contains(&tree.nodes[left].bv()));
                    assert!(bv.contains(&tree.nodes[right].bv()));
                    assert_eq!(bv, tree.nodes[left].bv().merged(&tree.nodes[right].bv()));
                    assert!(leaves[left] <= leaves[right] && leaves[right] <= leaves[left] + 1);
                    leaves[i] = leaves[left] + leaves[right];
                }
            }
        }
        assert!(seen.iter().all(|&b| b));
        assert_eq!(leaves[tree.nodes.len() - 1], n);
    }
}

#[test]
fn search_agrees_with_scan_on_many_scenes() {
    let mut rng = Lcg(2024);
    let mut hits = 0;
    for round in 0..200 {
        let n = 1 + (round % 37);
        let boxes: Vec<AABB> = (0..n)
            .map(|_| {
                cube(
                    rng.between(-30.0, 30.0),
                    rng.between(-30.0, 30.0),
                    rng.between(-30.0, 30.0),
                    rng.between(0.5, 6.0),
                )
            })
            .collect();
        let tree = BVT::new_balanced(boxes.clone());
        for _ in 0..20 {
            let origin =
                [rng.between(-40.0, 40.0), rng.between(-40.0, 40.0), rng.between(-40.0, 40.0)];
            let dir = [rng.between(-1.0, 1.0), rng.between(-1.0, 1.0), rng.between(-1.0, 1.0)];
            let ray = Caster { origin, dir, boxes: boxes.clone() };
            let searched = tree.best_first_search(&ray);
            let scanned = linear_search(n, &ray);
            assert_eq!(searched, scanned);
            if let Some((a, s)) = searched {
                hits += 1;
                assert_eq!(enter(origin, dir, &boxes[a]), Some(s));
            }
        }
    }
    assert!(hits > 100);
}

#[test]
fn of_two_objects_at_one_distance_the_scan_takes_the_first() {
    let boxes = vec![cube(9.0, 0.0, 0.0, 1.0), cube(4.0, 0.0, 0.0, 1.0), cube(4.0, 0.0, 0.5, 1.0)];
    let ray = along_x(&boxes);
    let (object, toi) = linear_search(3, &ray).unwrap();
    assert_eq!(object, 1);
    assert_eq!(value(toi), 3.0);
    let tree = BVT::new_balanced(boxes);
    let (found, found_toi) = tree.best_first_search(&ray).unwrap();
    assert_eq!(found, 1);
    assert_eq!(value(found_toi), 3.0);
}

#[test]
fn objects_are_parted_along_the_widest_axis() {
    let boxes = vec![
        cube(10.0, 300.0, 5.0, 1.0),
        cube(11.0, 100.0, 5.0, 1.0),
        cube(12.0, 200.0, 5.0, 1.0),
        cube(13.0, 50.0, 5.0, 1.0),
    ];
    let tree = BVT::new_balanced(boxes);
    assert_eq!(tree.nodes.len(), 7);
    match tree.nodes[6] {
        Node::Internal { axis, left, right, .. } => {
            assert_eq!(axis, Axis::Y);
            let objects = |i: usize| match tree.nodes[i] {
                Node::Internal { left, right, .. } => {
                    let mut found = Vec::new();
                    for child in [left, right] {
                        match tree.nodes[child] {
                            Node::Leaf { object, .. } => found.push(object),
                            _ => panic!("a tree over four objects has two levels"),
                        }
                    }
                    found
                }
                _ => panic!("a tree over four objects has two levels"),
            };
            assert_eq!(objects(left), vec![3, 1]);
            assert_eq!(objects(right), vec![2, 0]);
        }
        _ => panic!("the root of a tree over four objects is no leaf"),
    }
}

#[test]
fn of_many_objects_at_one_distance_the_search_takes_the_first() {
    let mut rng = Lcg(5);
    for n in 2..30usize {
        let boxes: Vec<AABB> = (0..n)
            .map(|_| cube(4.0, rng.between(-0.9, 0.9), rng.between(-0.9, 0.9), 1.0))
            .collect();
        let ray = along_x(&boxes);
        let tree = BVT::new_balanced(boxes);
        assert_eq!(tree.best_first_search(&ray), Some((0, s(3.0))));
        assert_eq!(linear_search(n, &ray), Some((0, s(3.0))));
        let measured = Measured { distances: (0..n).map(|o| (o >= 3).then_some(s(2.0))).collect() };
        let expected = if n > 3 { Some((3, s(2.0))) } else { None };
        assert_eq!(tree.best_first_search(&measured), expected);
    }
}

#[test]
fn boxes_merge_and_contain() {
    let a = cube(0.0, 0.0, 0.0, 1.0);
    let b = cube(3.0, 0.5, -2.0, 0.5);
    let m = a.merged(&b);
    assert_eq!(m.mins, Point { x: s(-1.0), y: s(-1.0), z: s(-2.5) });
    assert_eq!(m.maxs, Point { x: s(3.5), y: s(1.0), z: s(1.0) });
    assert!(m.contains(&a));
    assert!(m.contains(&b));
    assert!(!a.contains(&m));
    assert!(a.contains(&a));
    assert_eq!(b.merged(&a), m);
}

#[test]
fn a_box_keeps_its_corners_in_order() {
    let low = Point { x: s(0.0), y: s(0.0), z: s(0.0) };
    let high = Point { x: s(1.0), y: s(2.0), z: s(3.0) };
    assert!(AABB::new(low, high).is_some());
    assert!(AABB::new(low, low).is_some());
    assert!(AABB::new(high, low).is_none());
    assert!(AABB::new(low, Point { x: s(1.0), y: s(-0.5), z: s(3.0) }).is_none());
}

#[test]
fn a_visitor_comes_to_the_objects_that_the_ray_may_meet() {
    let boxes = vec![
        cube(9.0, 0.0, 0.0, 1.0),
        cube(4.0, 0.0, 0.0, 1.0),
        cube(2.0, 50.0, 0.0, 1.0),
        cube(6.0, 0.5, 0.0, 1.0),
        cube(-7.0, 0.0, 0.0, 1.0),
    ];
    let tree = BVT::new_balanced(boxes.clone());
    let ray = along_x(&boxes);
    let met = tree.visit(&ray);
    for o in [0, 1, 3] {
        assert!(met.contains(&o));
    }
    let mut sorted = met.clone();
    sorted.sort();
    sorted.dedup();
    assert_eq!(sorted.len(), met.len());
    let up = Caster { origin: [0.0, 100.0, 0.0], dir: [0.0, 1.0, 0.0], boxes: boxes.clone() };
    assert_eq!(tree.visit(&up), Vec::<usize>::new());
    let everywhere = Measured { distances: vec![None; 5] };
    let mut all = tree.visit(&everywhere);
    all.sort();
    assert_eq!(all, vec![0, 1, 2, 3, 4]);
    let single = BVT::new_balanced(vec![cube(0.0, 0.0, 0.0, 1.0)]);
    assert_eq!(single.visit(&up), vec![0]);
    assert_eq!(BVT::new_balanced(Vec::new()).visit(&everywhere), Vec::<usize>::new());
}

#[test]
fn a_visitor_goes_from_left_to_right() {
    let boxes = vec![
        cube(10.0, 300.0, 5.0, 1.0),
        cube(11.0, 100.0, 5.0, 1.0),
        cube(12.0, 200.0, 5.0, 1.0),
        cube(13.0, 50.0, 5.0, 1.0),
    ];
    let tree = BVT::new_balanced(boxes);
    let everywhere = Measured { distances: Vec::new() };
    assert_eq!(tree.visit(&everywhere), vec![3, 1, 2, 0]);
}

#[test]
fn the_queue_gives_the_nearest_first() {
    let mut rng = Lcg(99);
    let mut queue = Queue::new();
    assert_eq!(queue.len(), 0);
    assert!(queue.pop().is_none());
    let mut costs = Vec::new();
    for node in 0..200 {
        let cost = rng.between(-50.0, 50.0);
        costs.push(cost);
        queue.push(Pending { cost: s(cost), node });
        assert_eq!(queue.len(), node + 1);
    }
    costs.sort_by(|a, b| a.partial_cmp(b).unwrap());
    let mut seen = vec![false; 200];
    for expected in costs {
        let entry = queue.pop().unwrap();
        assert_eq!(value(entry.cost), expected);
        assert!(!seen[entry.node]);
        seen[entry.node] = true;
    }
    assert!(queue.pop().is_none());
    assert_eq!(queue.len(), 0);
}

#[test]
fn the_queue_takes_entries_between_its_answers() {
    let mut queue = Queue::new();
    for (node, cost) in [5.0f32, 1.0, 3.0].into_iter().enumerate() {
        queue.push(Pending { cost: s(cost), node });
    }
    assert_eq!(queue.pop().map(|e| (value(e.cost), e.node)), Some((1.0, 1)));
    queue.push(Pending { cost: s(0.5), node: 7 });
    queue.push(Pending { cost: s(4.0), node: 8 });
    assert_eq!(queue.pop().map(|e| (value(e.cost), e.node)), Some((0.5, 7)));
    assert_eq!(queue.pop().map(|e| (value(e.cost), e.node)), Some((3.0, 2)));
    assert_eq!(queue.pop().map(|e| (value(e.cost), e.node)), Some((4.0, 8)));
    assert_eq!(queue.pop().map(|e| (value(e.cost), e.node)), Some((5.0, 0)));
    assert_eq!(queue.pop().map(|e| (value(e.cost), e.node)), None);
}

#[test]
fn a_measured_ray_finds_the_least_of_its_distances() {
    let boxes: Vec<AABB> = (0..5).map(|i| cube(i as f32 * 3.0, 0.0, 0.0, 1.0)).collect();
    let tree = BVT::new_balanced(boxes);
    let ray = Measured { distances: vec![Some(s(5.0)), None, Some(s(3.0)), Some(s(4.0)), None] };
    assert_eq!(tree.best_first_search(&ray), Some((2, s(3.0))));
    assert_eq!(linear_search(5, &ray), Some((2, s(3.0))));
    let blind = Measured { distances: vec![None; 5] };
    assert_eq!(tree.best_first_search(&blind), None);
    let short = Measured { distances: vec![Some(s(5.0))] };
    assert_eq!(tree.best_first_search(&short), Some((0, s(5.0))));
    assert_eq!(short.compute_b_cost(1), None);
    assert_eq!(short.compute_bv_cost(&tree.boxes[0]), Some(Scalar::zero()));
}

#[test]
fn a_range_is_sorted_by_where_its_boxes_begin() {
    let boxes = vec![
        cube(5.0, 0.0, 0.0, 1.0),
        cube(3.0, 0.0, 9.0, 1.0),
        cube(4.0, 0.0, 2.0, 1.0),
        cube(1.0, 0.0, 7.0, 1.0),
        cube(2.0, 0.0, 4.0, 1.0),
    ];
    let mut order = vec![0, 1, 2, 3, 4];
    sort_range(&boxes, &mut order, 1, 4, Axis::X);
    assert_eq!(order, vec![0, 3, 1, 2, 4]);
    sort_range(&boxes, &mut order, 0, 5, Axis::Z);
    assert_eq!(order, vec![0, 2, 4, 3, 1]);
    sort_range(&boxes, &mut order, 2, 2, Axis::X);
    sort_range(&boxes, &mut order, 4, 5, Axis::X);
    assert_eq!(order, vec![0, 2, 4, 3, 1]);
    sort_range(&boxes, &mut order, 0, 5, Axis::Y);
    assert_eq!(order, vec![0, 2, 4, 3, 1]);
    assert_eq!(widest_axis(&boxes, &order, 0, 5), Axis::Z);
    assert_eq!(widest_axis(&boxes, &order, 0, 1), Axis::X);
    let flat = vec![cube(1000.0, 0.25, -3.0, 1.0), cube(1010.0, 0.5, -3.0, 1.0)];
    assert_eq!(widest_axis(&flat, &vec![0, 1], 0, 2), Axis::X);
    let tall = vec![cube(1.0, 2.0, 1.0, 0.5), cube(1.0, 64.0, 1.0, 0.5)];
    assert_eq!(widest_axis(&tall, &vec![0, 1], 0, 2), Axis::Y);
}

#[test]
fn a_point_has_a_coordinate_along_each_axis() {
    let p = Point { x: s(1.0), y: s(2.0), z: s(3.0) };
    assert_eq!(p.along(Axis::X), s(1.0));
    assert_eq!(p.along(Axis::Y), s(2.0));
    assert_eq!(p.along(Axis::Z), s(3.0));
}
