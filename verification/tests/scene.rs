use in1weekend::aabb::AABB;
use in1weekend::bvt::BVTCostFn;
use in1weekend::scalar::Scalar;
use in1weekend::scene::{negligible_weight, pick, Action, Event, Path, Phase, Scene, MAX_ITER, NEGLIGIBLE};
use in1weekend::space::Point;
use rand::rngs::StdRng;
use rand::SeedableRng;

fn s(x: f32) -> Scalar {
    Scalar::from_bits(x.to_bits()).unwrap()
}

fn cube(cx: f32, cy: f32, cz: f32, half: f32) -> AABB {
    AABB::new(
        Point { x: s(cx - half), y: s(cy - half), z: s(cz - half) },
        Point { x: s(cx + half), y: s(cy + half), z: s(cz + half) },
    )
    .unwrap()
}

/// Where a ray along the x axis from the origin enters a box.
fn enter(bv: &AABB) -> Option<Scalar> {
    let zero = Scalar::zero();
    let inside =
        bv.mins.y.le(&zero) && zero.le(&bv.maxs.y) && bv.mins.z.le(&zero) && zero.le(&bv.maxs.z);
    if !inside || bv.maxs.x.lt(&zero) {
        None
    } else {
        Some(bv.mins.x.max(zero))
    }
}

/// A ray along the x axis among cubes, each the object in its own box.
struct AlongX {
    boxes: Vec<AABB>,
}

impl BVTCostFn for AlongX {
    fn bv_cost(&self, bv: AABB) -> Option<Scalar> {
        enter(&bv)
    }

    fn b_cost(&self, b: usize) -> Option<Scalar> {
        enter(&self.boxes[b])
    }

    fn compute_bv_cost(&self, bv: &AABB) -> Option<Scalar> {
        enter(bv)
    }

    fn compute_b_cost(&self, b: usize) -> Option<Scalar> {
        enter(&self.boxes[b])
    }
}

#[test]
fn the_cutoff_is_three_ten_thousandths() {
    assert_eq!(NEGLIGIBLE, 0.0003f32.to_bits());
    assert_eq!(negligible_weight(), s(0.0003));
    assert_eq!(MAX_ITER, 50);
}

#[test]
fn a_ray_that_meets_nothing_ends_in_the_background() {
    let path = Path::new(50);
    assert_eq!(path, Path { phase: Phase::Casting, bounces: 0, max_bounces: 50 });
    let (next, action) = path.step(Event::Missed);
    assert_eq!(action, Action::AddBackground);
    assert_eq!(next, Path { phase: Phase::Finished, bounces: 0, max_bounces: 50 });
    assert!(next.finished());
}

#[test]
fn a_light_ends_the_path() {
    let (path, action) = Path::new(50).step(Event::Hit);
    assert_eq!(action, Action::AddEmittedAndScatter);
    assert_eq!(path.phase, Phase::Shading);
    let (path, action) = path.step(Event::Absorbed);
    assert_eq!(action, Action::Stop);
    assert_eq!(path, Path { phase: Phase::Finished, bounces: 0, max_bounces: 50 });
}

#[test]
fn a_scattered_ray_is_followed() {
    let (path, _) = Path::new(50).step(Event::Hit);
    let (path, action) = path.step(Event::Scattered { weight: s(2.4) });
    assert_eq!(action, Action::Follow);
    assert_eq!(path, Path { phase: Phase::Casting, bounces: 1, max_bounces: 50 });
}

#[test]
fn a_negligible_path_is_dropped() {
    let (path, _) = Path::new(50).step(Event::Hit);
    let (dropped, action) = path.step(Event::Scattered { weight: s(0.00029) });
    assert_eq!(action, Action::Stop);
    assert_eq!(dropped, Path { phase: Phase::Finished, bounces: 1, max_bounces: 50 });
    let (kept, action) = path.step(Event::Scattered { weight: s(0.0003) });
    assert_eq!(action, Action::Follow);
    assert_eq!(kept.phase, Phase::Casting);
}

#[test]
fn a_path_is_sent_on_no_more_often_than_it_may_be() {
    for max in [0u32, 1, 2, 10, 50] {
        let mut path = Path::new(max);
        let mut followed = 0;
        let mut steps = 0;
        while !path.finished() {
            let event = match path.phase {
                Phase::Casting => Event::Hit,
                _ => Event::Scattered { weight: s(3.0) },
            };
            let (next, action) = path.step(event);
            if action == Action::Follow {
                followed += 1;
            }
            assert!(next.bounces <= max);
            path = next;
            steps += 1;
            assert!(steps <= 2 * max + 1);
        }
        assert_eq!(followed, max);
        assert_eq!(path.bounces, max);
    }
}

#[test]
fn at_the_limit_the_emission_is_still_added() {
    let path = Path { phase: Phase::Casting, bounces: 50, max_bounces: 50 };
    let (next, action) = path.step(Event::Hit);
    assert_eq!(action, Action::AddEmitted);
    assert_eq!(next, Path { phase: Phase::Finished, bounces: 50, max_bounces: 50 });
}

#[test]
fn events_out_of_turn_change_nothing() {
    let casting = Path::new(5);
    assert_eq!(casting.step(Event::Absorbed), (casting, Action::Ignore));
    assert_eq!(casting.step(Event::Scattered { weight: s(1.0) }), (casting, Action::Ignore));
    let (shading, _) = casting.step(Event::Hit);
    assert_eq!(shading.step(Event::Hit), (shading, Action::Ignore));
    assert_eq!(shading.step(Event::Missed), (shading, Action::Ignore));
    let finished = Path { phase: Phase::Finished, bounces: 3, max_bounces: 5 };
    for event in [Event::Missed, Event::Hit, Event::Absorbed, Event::Scattered { weight: s(1.0) }] {
        assert_eq!(finished.step(event), (finished, Action::Ignore));
    }
}

#[test]
fn an_empty_scene_shows_the_background() {
    let scene = Scene::new(Vec::new(), Vec::new()).unwrap();
    let path = Path::new(MAX_ITER);
    let (next, action, found) = scene.trace(path, &AlongX { boxes: Vec::new() });
    assert_eq!(action, Action::AddBackground);
    assert_eq!(found, None);
    assert_eq!(next, Path { phase: Phase::Finished, bounces: 0, max_bounces: MAX_ITER });
}

#[test]
fn trace_finds_the_nearest_object_and_asks_its_material() {
    let boxes = vec![cube(9.0, 0.0, 0.0, 1.0), cube(4.0, 0.0, 0.0, 1.0), cube(2.0, 5.0, 0.0, 1.0)];
    let scene = Scene::new(boxes.clone(), vec![false, false, true]).unwrap();
    let ray = AlongX { boxes };
    let (next, action, found) = scene.trace(Path::new(50), &ray);
    assert_eq!(found, Some((1, s(3.0))));
    assert_eq!(action, Action::AddEmittedAndScatter);
    assert_eq!(next, Path { phase: Phase::Shading, bounces: 0, max_bounces: 50 });
    let (same, action, found) = scene.trace(next, &ray);
    assert_eq!((same, action, found), (next, Action::Ignore, None));
}

#[test]
fn a_scene_needs_a_flag_for_every_object() {
    assert!(Scene::new(vec![cube(0.0, 0.0, 0.0, 1.0)], vec![]).is_none());
    assert!(Scene::new(vec![], vec![true]).is_none());
    assert!(Scene::new(vec![cube(0.0, 0.0, 0.0, 1.0)], vec![true]).is_some());
}

#[test]
fn important_objects_leave_out_the_one_ignored() {
    let boxes: Vec<AABB> = (0..6).map(|i| cube(i as f32 * 3.0, 0.0, 0.0, 1.0)).collect();
    let scene = Scene::new(boxes, vec![true, false, true, true, false, true]).unwrap();
    assert_eq!(scene.important_objects(2), vec![0, 3, 5]);
    assert_eq!(scene.important_objects(1), vec![0, 2, 3, 5]);
    assert_eq!(scene.important_objects(100), vec![0, 2, 3, 5]);
}

#[test]
fn importance_sample_chooses_among_the_important() {
    let boxes: Vec<AABB> = (0..6).map(|i| cube(i as f32 * 3.0, 0.0, 0.0, 1.0)).collect();
    let scene = Scene::new(boxes, vec![true, false, true, true, false, true]).unwrap();
    let mut seen = [false; 6];
    let mut rng = StdRng::seed_from_u64(1);
    for _ in 0..400 {
        let (object, of) = scene.importance_sample(3, &mut rng).unwrap();
        assert_eq!(of, 3);
        assert!(object == 0 || object == 2 || object == 5);
        seen[object] = true;
    }
    assert_eq!(seen, [true, false, true, false, false, true]);
}

#[test]
fn importance_sample_has_nothing_to_choose_from() {
    let boxes: Vec<AABB> = (0..3).map(|i| cube(i as f32 * 3.0, 0.0, 0.0, 1.0)).collect();
    let scene = Scene::new(boxes.clone(), vec![false, true, false]).unwrap();
    let mut rng = StdRng::seed_from_u64(1);
    assert_eq!(scene.importance_sample(1, &mut rng), None);
    assert_eq!(scene.importance_sample(0, &mut rng), Some((1, 1)));
    let dark = Scene::new(boxes, vec![false, false, false]).unwrap();
    assert_eq!(dark.importance_sample(0, &mut rng), None);
}

#[test]
fn pick_returns_an_entry_and_not_the_list() {
    let mut rng = StdRng::seed_from_u64(42);
    assert_eq!(pick(Vec::new(), &mut rng), None);
    assert_eq!(pick(vec![7], &mut rng), Some((7, 1)));
    for _ in 0..100 {
        let (object, of) = pick(vec![4, 8, 15], &mut rng).unwrap();
        assert_eq!(of, 3);
        assert!([4, 8, 15].contains(&object));
    }
}

#[test]
fn one_seed_gives_one_run_of_choices() {
    let boxes: Vec<AABB> = (0..9).map(|i| cube(i as f32 * 3.0, 0.0, 0.0, 1.0)).collect();
    let scene = Scene::new(boxes, vec![true; 9]).unwrap();
    let mut first = StdRng::seed_from_u64(2718);
    let mut second = StdRng::seed_from_u64(2718);
    let a: Vec<_> = (0..64).map(|i| scene.importance_sample(i % 9, &mut first)).collect();
    let b: Vec<_> = (0..64).map(|i| scene.importance_sample(i % 9, &mut second)).collect();
    assert_eq!(a, b);
    assert!(a.iter().any(|c| *c != a[0]));
}

#[test]
fn important_objects_in_reach_of_a_ray() {
    let boxes = vec![
        cube(9.0, 0.0, 0.0, 1.0),
        cube(4.0, 0.0, 0.0, 1.0),
        cube(2.0, 50.0, 0.0, 1.0),
        cube(6.0, 0.5, 0.0, 1.0),
    ];
    let scene = Scene::new(boxes.clone(), vec![true, true, true, false]).unwrap();
    let ray = AlongX { boxes };
    let met = scene.important_in_reach(9, &ray);
    assert!(met.contains(&0) && met.contains(&1));
    assert!(!met.contains(&3));
    let others = scene.important_in_reach(1, &ray);
    assert!(others.contains(&0));
    assert!(!others.contains(&1) && !others.contains(&3));
    let none = Scene::new(Vec::new(), Vec::new()).unwrap();
    assert_eq!(none.important_in_reach(0, &ray), Vec::<usize>::new());
}

#[test]
fn one_scene_and_one_ray_give_one_result() {
    let boxes = vec![
        cube(4.0, 0.3, 0.0, 1.0),
        cube(4.0, 0.0, 0.0, 1.0),
        cube(9.0, 0.0, 0.0, 1.0),
        cube(4.0, -0.3, 0.2, 1.0),
    ];
    let scene = Scene::new(boxes.clone(), vec![false; 4]).unwrap();
    let again = Scene::new(boxes.clone(), vec![false; 4]).unwrap();
    let ray = AlongX { boxes };
    let first = scene.trace(Path::new(50), &ray);
    assert_eq!(first.2, Some((0, s(3.0))));
    for _ in 0..10 {
        assert_eq!(scene.trace(Path::new(50), &ray), first);
        assert_eq!(again.trace(Path::new(50), &ray), first);
    }
}
