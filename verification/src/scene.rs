//! The scene and the integrator: how a light path is followed from the camera
//! until it ends.
use vstd::prelude::*;
use crate::aabb::AABB;
use crate::bvt::{admissible, is_nearest, spec_nearest, BVTCostFn, BVT};
use crate::random::choose_one;
use crate::scalar::Scalar;

verus! {

/// The greatest number of times that a path is sent on by a material.
pub const MAX_ITER: u32 = 50;

/// The bit pattern of 0.0003: a path whose attenuation has channels that sum
/// to less is not followed further.
pub const NEGLIGIBLE: u32 = 0x399d_4952;

/// Where a path stands.
#[derive(Clone, Copy, Debug, PartialEq, Eq, Structural)]
pub enum Phase {
    /// Its ray is to be cast into the scene.
    Casting,
    /// Its ray has met an object, whose material is to be asked.
    Shading,
    /// It has ended.
    Finished,
}

/// A light path: its phase, how many times a material has sent it on, and
/// how many times one may.
#[derive(Clone, Copy, Debug, PartialEq, Eq, Structural)]
pub struct Path {
    pub phase: Phase,
    pub bounces: u32,
    pub max_bounces: u32,
}

/// What the renderer found when it did what the path asked for.
#[derive(Clone, Copy, Debug, PartialEq, Eq, Structural)]
pub enum Event {
    /// The ray meets no object.
    Missed,
    /// The ray meets an object.
    Hit,
    /// The material of the object sends no ray on.
    Absorbed,
    /// The material sends a ray on. `weight` is the sum of the channels of
    /// the path's attenuation, the material's included.
    Scattered { weight: Scalar },
}

/// What the renderer does next.
#[derive(Clone, Copy, Debug, PartialEq, Eq, Structural)]
pub enum Action {
    /// Add the background in the ray's direction, attenuated. The path has
    /// ended.
    AddBackground,
    /// Add what the object emits, attenuated, and ask its material for a
    /// scattered ray.
    AddEmittedAndScatter,
    /// Add what the object emits, attenuated. The path has ended, for it has
    /// been sent on as often as it may.
    AddEmitted,
    /// Cast the scattered ray.
    Follow,
    /// The path has ended and nothing is added.
    Stop,
    /// The event does not belong to the path's phase: nothing changes.
    Ignore,
}

impl Path {
    /// A path is sent on no more often than it may be.
    pub open spec fn wf(&self) -> bool {
        self.bounces <= self.max_bounces
    }

    /// What `new` returns.
    pub open spec fn spec_new(max_bounces: u32) -> Path {
        Path { phase: Phase::Casting, bounces: 0, max_bounces }
    }

    /// The path after `event`, and what the renderer does next.
    pub open spec fn spec_step(self, event: Event) -> (Path, Action) {
        match (self.phase, event) {
            (Phase::Casting, Event::Missed) => (
                Path { phase: Phase::Finished, ..self },
                Action::AddBackground,
            ),
            (Phase::Casting, Event::Hit) => if self.bounces < self.max_bounces {
                (Path { phase: Phase::Shading, ..self }, Action::AddEmittedAndScatter)
            } else {
                (Path { phase: Phase::Finished, ..self }, Action::AddEmitted)
            },
            (Phase::Shading, Event::Absorbed) => (
                Path { phase: Phase::Finished, ..self },
                Action::Stop,
            ),
            (Phase::Shading, Event::Scattered { weight }) => if self.bounces >= self.max_bounces {
                (Path { phase: Phase::Finished, ..self }, Action::Stop)
            } else if weight@ < negligible()@ {
                (
                    Path { phase: Phase::Finished, bounces: (self.bounces + 1) as u32, ..self },
                    Action::Stop,
                )
            } else {
                (
                    Path { phase: Phase::Casting, bounces: (self.bounces + 1) as u32, ..self },
                    Action::Follow,
                )
            },
            _ => (self, Action::Ignore),
        }
    }

    /// The path after a run of events, one after the other.
    pub open spec fn spec_run(self, events: Seq<Event>) -> Path
        decreases events.len(),
    {
        if events.len() == 0 {
            self
        } else {
            self.spec_run(events.drop_last()).spec_step(events.last()).0
        }
    }

    /// The number of rays that a run of events has the renderer follow.
    pub open spec fn spec_followed(self, events: Seq<Event>) -> nat
        decreases events.len(),
    {
        if events.len() == 0 {
            0
        } else {
            let before = self.spec_run(events.drop_last());
            self.spec_followed(events.drop_last()) + if before.spec_step(events.last()).1
                == Action::Follow {
                1nat
            } else {
                0nat
            }
        }
    }

    /// A path at its start: its first ray is to be cast.
    pub fn new(max_bounces: u32) -> (path: Path)
        ensures
            path == Self::spec_new(max_bounces),
            path.wf(),
    {
        Path { phase: Phase::Casting, bounces: 0, max_bounces }
    }

    /// Whether the path has ended.
    pub fn finished(&self) -> (r: bool)
        ensures
            r == (self.phase == Phase::Finished),
    {
        self.phase == Phase::Finished
    }

    /// The path after `event`, and what the renderer does next.
    ///
    /// A ray that meets nothing ends the path in the background. A ray that
    /// meets an object has the object's emission added; its material is
    /// asked for a scattered ray unless the path has been sent on as often
    /// as it may. A material that sends no ray on ends the path; one that
    /// does has the path go on with that ray, unless what the path can still
    /// add has become negligible.
    pub fn step(self, event: Event) -> (r: (Path, Action))
        ensures
            r == self.spec_step(event),
            self.wf() ==> r.0.wf(),
    {
        match (self.phase, event) {
            (Phase::Casting, Event::Missed) => (
                Path { phase: Phase::Finished, bounces: self.bounces, max_bounces: self.max_bounces },
                Action::AddBackground,
            ),
            (Phase::Casting, Event::Hit) => {
                if self.bounces < self.max_bounces {
                    (
                        Path {
                            phase: Phase::Shading,
                            bounces: self.bounces,
                            max_bounces: self.max_bounces,
                        },
                        Action::AddEmittedAndScatter,
                    )
                } else {
                    (
                        Path {
                            phase: Phase::Finished,
                            bounces: self.bounces,
                            max_bounces: self.max_bounces,
                        },
                        Action::AddEmitted,
                    )
                }
            },
            (Phase::Shading, Event::Absorbed) => (
                Path { phase: Phase::Finished, bounces: self.bounces, max_bounces: self.max_bounces },
                Action::Stop,
            ),
            (Phase::Shading, Event::Scattered { weight }) => {
                if self.bounces >= self.max_bounces {
                    (
                        Path {
                            phase: Phase::Finished,
                            bounces: self.bounces,
                            max_bounces: self.max_bounces,
                        },
                        Action::Stop,
                    )
                } else if weight.lt(&negligible_weight()) {
                    (
                        Path {
                            phase: Phase::Finished,
                            bounces: self.bounces + 1,
                            max_bounces: self.max_bounces,
                        },
                        Action::Stop,
                    )
                } else {
                    (
                        Path {
                            phase: Phase::Casting,
                            bounces: self.bounces + 1,
                            max_bounces: self.max_bounces,
                        },
                        Action::Follow,
                    )
                }
            },
            _ => (self, Action::Ignore),
        }
    }
}

/// The weight below which a path is not followed further, as a scalar.
pub open spec fn negligible() -> Scalar {
    Scalar { key: 0xb99d_4952 }
}

/// The weight below which a path is not followed further.
pub fn negligible_weight() -> (w: Scalar)
    ensures
        w == negligible(),
        Scalar::spec_from_bits(NEGLIGIBLE) == Some(w),
        w.wf(),
{
    proof {
        assert((0x399d_4952u32 & 0x7fff_ffff) == 0x399d_4952 && (0x399d_4952u32 & 0x8000_0000)
            == 0) by (bit_vector);
    }
    Scalar { key: 0xb99d_4952 }
}

/// A path is never sent on more often than it may be: whatever the events,
/// the rays it has the renderer follow are no more than its bounces, and
/// its bounces no more than the limit it was started with.
pub proof fn path_length_is_bounded(max_bounces: u32, events: Seq<Event>)
    ensures
        Path::spec_new(max_bounces).spec_run(events).max_bounces == max_bounces,
        Path::spec_new(max_bounces).spec_followed(events) <= Path::spec_new(max_bounces).spec_run(
            events,
        ).bounces <= max_bounces,
    decreases events.len(),
{
    if events.len() > 0 {
        path_length_is_bounded(max_bounces, events.drop_last());
    }
}

/// A path that has ended stays as it is, whatever comes.
pub proof fn finished_is_final(path: Path, events: Seq<Event>)
    requires
        path.phase == Phase::Finished,
    ensures
        path.spec_run(events) == path,
        path.spec_followed(events) == 0,
    decreases events.len(),
{
    if events.len() > 0 {
        finished_is_final(path, events.drop_last());
    }
}

/// The objects among the first `n` that are flagged as important, but for
/// `ignored`, in rising order.
pub open spec fn candidates(important: Seq<bool>, ignored: usize, n: int) -> Seq<usize>
    decreases n,
{
    if n <= 0 {
        Seq::empty()
    } else {
        let before = candidates(important, ignored, n - 1);
        if important[n - 1] && n - 1 != ignored {
            before.push((n - 1) as usize)
        } else {
            before
        }
    }
}

/// `candidates` holds exactly the flagged objects below `n` other than
/// `ignored`, each once, in rising order.
pub proof fn candidates_are_the_important(important: Seq<bool>, ignored: usize, n: int)
    requires
        0 <= n <= important.len(),
        n <= usize::MAX,
    ensures
        forall|o: usize|
            #[trigger] candidates(important, ignored, n).contains(o) <==> (o < n && o != ignored
                && important[o as int]),
        forall|i: int, j: int|
            0 <= i < j < candidates(important, ignored, n).len() ==> candidates(
                important,
                ignored,
                n,
            )[i] < candidates(important, ignored, n)[j],
        forall|i: int|
            0 <= i < candidates(important, ignored, n).len() ==> candidates(
                important,
                ignored,
                n,
            )[i] < n,
        candidates(important, ignored, n).len() <= n,
    decreases n,
{
    if n > 0 {
        candidates_are_the_important(important, ignored, n - 1);
        let before = candidates(important, ignored, n - 1);
        let now = candidates(important, ignored, n);
        let last = (n - 1) as usize;
        let added = important[n - 1] && n - 1 != ignored;
        assert(now == if added { before.push(last) } else { before });
        assert forall|o: usize| now.contains(o) implies (o < n && o != ignored
            && important[o as int]) by {
            let k = choose|k: int| 0 <= k < now.len() && now[k] == o;
            if k < before.len() {
                assert(before[k] == o);
                assert(before.contains(o));
            }
        }
        assert forall|o: usize| (o < n && o != ignored && important[o as int]) implies now.contains(
            o,
        ) by {
            if o == last {
                assert(now[now.len() - 1] == o);
            } else {
                assert(before.contains(o));
                let k = choose|k: int| 0 <= k < before.len() && before[k] == o;
                assert(now[k] == o);
            }
        }
    }
}

/// Those of `objects` that are flagged as important, but for `ignored`, in
/// the order in which they stand.
pub open spec fn among(objects: Seq<usize>, important: Seq<bool>, ignored: usize) -> Seq<usize>
    decreases objects.len(),
{
    if objects.len() == 0 {
        Seq::empty()
    } else {
        let before = among(objects.drop_last(), important, ignored);
        let o = objects.last();
        if o != ignored && o < important.len() && important[o as int] {
            before.push(o)
        } else {
            before
        }
    }
}

/// `among` keeps every object that is flagged and not ignored.
pub proof fn among_keeps_the_important(
    objects: Seq<usize>,
    important: Seq<bool>,
    ignored: usize,
    o: usize,
)
    requires
        objects.contains(o),
        o != ignored,
        o < important.len(),
        important[o as int],
    ensures
        among(objects, important, ignored).contains(o),
    decreases objects.len(),
{
    let kept = among(objects, important, ignored);
    if objects.last() == o {
        assert(kept[kept.len() - 1] == o);
    } else {
        let k = choose|k: int| 0 <= k < objects.len() && objects[k] == o;
        assert(objects.drop_last()[k] == o);
        among_keeps_the_important(objects.drop_last(), important, ignored, o);
        let before = among(objects.drop_last(), important, ignored);
        let j = choose|j: int| 0 <= j < before.len() && before[j] == o;
        assert(kept[j] == o);
    }
}

/// What the integrator knows of a scene: the tree over its objects, and for
/// each object whether light is to be looked for in its direction (it emits
/// light, or it bends light).
pub struct Scene {
    pub objects: BVT,
    pub important: Vec<bool>,
}

impl Scene {
    /// The tree is sound and every object has its flag.
    pub open spec fn wf(&self) -> bool {
        &&& self.objects.wf()
        &&& self.important.len() == self.objects.boxes.len()
    }

    /// The scene of the objects whose boxes and flags are given, or `None`
    /// where there are not as many flags as boxes.
    pub fn new(boxes: Vec<AABB>, important: Vec<bool>) -> (scene: Option<Scene>)
        ensures
            scene.is_some() <==> boxes.len() == important.len(),
            scene matches Some(s) ==> s.wf() && s.objects.boxes@ == boxes@ && s.important@
                == important@,
    {
        if boxes.len() != important.len() {
            None
        } else {
            Some(Scene { objects: BVT::new_balanced(boxes), important })
        }
    }

    /// What `trace` returns where the boxes bound the objects from below: a
    /// function of the scene, the path and the answers of the ray.
    pub open spec fn spec_trace<C: BVTCostFn>(&self, path: Path, cost: &C) -> (
        Path,
        Action,
        Option<(usize, Scalar)>,
    ) {
        if path.phase != Phase::Casting {
            (path, Action::Ignore, None)
        } else {
            let found = spec_nearest(cost, self.objects.boxes.len() as nat);
            let moved = path.spec_step(
                if found.is_some() {
                    Event::Hit
                } else {
                    Event::Missed
                },
            );
            (moved.0, moved.1, found)
        }
    }

    /// Casts the ray of a path: finds the object that the ray meets first
    /// and moves the path on. For a path that is not in its casting phase
    /// nothing is looked for and nothing changes.
    ///
    /// `cost` answers for the ray. In a scene without objects every path
    /// ends in the background at once. Where the boxes bound the objects
    /// from below, the result is `spec_trace`: the same scene, path and ray
    /// give the same result, whenever and wherever they are traced.
    pub fn trace<C: BVTCostFn>(&self, path: Path, cost: &C) -> (r: (
        Path,
        Action,
        Option<(usize, Scalar)>,
    ))
        requires
            self.wf(),
        ensures
            path.phase != Phase::Casting ==> r == (path, Action::Ignore, None::<(usize, Scalar)>),
            path.phase == Phase::Casting ==> (r.0, r.1) == path.spec_step(
                if r.2.is_some() {
                    Event::Hit
                } else {
                    Event::Missed
                },
            ),
            r.2 matches Some((object, toi)) ==> object < self.objects.boxes.len() && cost.b_cost(
                object,
            ) == Some(toi),
            path.phase == Phase::Casting && admissible(cost, self.objects.boxes@) ==> is_nearest(
                cost,
                self.objects.boxes.len() as int,
                r.2,
            ),
            path.phase != Phase::Casting || admissible(cost, self.objects.boxes@) ==> r
                == self.spec_trace(path, cost),
            path.phase == Phase::Casting && self.objects.boxes.len() == 0 ==> r == (
                Path { phase: Phase::Finished, ..path },
                Action::AddBackground,
                None::<(usize, Scalar)>,
            ),
    {
        if path.phase != Phase::Casting {
            return (path, Action::Ignore, None);
        }
        let found: Option<(usize, Scalar)> = self.objects.best_first_search(cost);
        let event: Event = if found.is_some() {
            Event::Hit
        } else {
            Event::Missed
        };
        let (next, action) = path.step(event);
        (next, action, found)
    }

    /// The objects in whose direction light is looked for from object
    /// `ignored`: all that are flagged, but for `ignored` itself.
    pub fn important_objects(&self, ignored: usize) -> (found: Vec<usize>)
        ensures
            found@ == candidates(self.important@, ignored, self.important.len() as int),
    {
        let mut found: Vec<usize> = Vec::new();
        let mut o: usize = 0;
        while o < self.important.len()
            invariant
                o <= self.important.len(),
                found@ == candidates(self.important@, ignored, o as int),
            decreases self.important.len() - o,
        {
            if self.important[o] && o != ignored {
                found.push(o);
            }
            o = o + 1;
        }
        found
    }

    /// The important objects other than `ignored` that the ray may meet:
    /// those that a visitor of the tree comes to, in the order in which it
    /// comes to them. Where the boxes bound the objects from below, every
    /// important object other than `ignored` that the ray meets is among
    /// them.
    pub fn important_in_reach<C: BVTCostFn>(&self, ignored: usize, cost: &C) -> (found: Vec<usize>)
        requires
            self.wf(),
        ensures
            found@ == among(self.objects.spec_visit(cost), self.important@, ignored),
            admissible(cost, self.objects.boxes@) ==> forall|o: usize|
                o < self.important.len() && o != ignored && self.important[o as int] && (
                #[trigger] cost.b_cost(o)).is_some() ==> found@.contains(o),
    {
        let reached: Vec<usize> = self.objects.visit(cost);
        let mut found: Vec<usize> = Vec::new();
        let mut k: usize = 0;
        while k < reached.len()
            invariant
                k <= reached.len(),
                self.wf(),
                forall|j: int| 0 <= j < reached.len() ==> #[trigger] reached[j] < self.important.len(),
                found@ == among(reached@.take(k as int), self.important@, ignored),
            decreases reached.len() - k,
        {
            let o: usize = reached[k];
            proof {
                assert(reached@.take(k + 1).drop_last() =~= reached@.take(k as int));
            }
            if o != ignored && self.important[o] {
                found.push(o);
            }
            k = k + 1;
        }
        proof {
            assert(reached@.take(reached.len() as int) =~= reached@);
            if admissible(cost, self.objects.boxes@) {
                assert forall|o: usize|
                    o < self.important.len() && o != ignored && self.important[o as int] && (
                    #[trigger] cost.b_cost(o)).is_some() implies found@.contains(o) by {
                    among_keeps_the_important(reached@, self.important@, ignored, o);
                }
            }
        }
        found
    }

    /// One of the important objects other than `ignored`, each with the
    /// same chance, and how many there are to choose from; `None` where
    /// there is none. The choice is drawn from `rng`.
    pub fn importance_sample(&self, ignored: usize, rng: &mut rand::rngs::StdRng) -> (chosen:
        Option<(usize, usize)>)
        ensures
            chosen.is_none() <==> candidates(
                self.important@,
                ignored,
                self.important.len() as int,
            ).len() == 0,
            chosen matches Some((object, of)) ==> {
                &&& object < self.important.len()
                &&& object != ignored
                &&& self.important[object as int]
                &&& of == candidates(self.important@, ignored, self.important.len() as int).len()
            },
    {
        let found: Vec<usize> = self.important_objects(ignored);
        let chosen: Option<(usize, usize)> = pick(found, rng);
        proof {
            candidates_are_the_important(self.important@, ignored, self.important.len() as int);
            if let Some((object, of)) = chosen {
                assert(candidates(
                    self.important@,
                    ignored,
                    self.important.len() as int,
                ).contains(object));
            }
        }
        chosen
    }
}

/// One entry of `candidates`, drawn from `rng`, with their number.
pub fn pick(candidates: Vec<usize>, rng: &mut rand::rngs::StdRng) -> (chosen: Option<
    (usize, usize),
>)
    ensures
        chosen.is_none() <==> candidates.len() == 0,
        chosen matches Some((object, of)) ==> candidates@.contains(object) && of
            == candidates.len(),
{
    match choose_one(&candidates, rng) {
        Some(object) => Some((object, candidates.len())),
        None => None,
    }
}

} // verus!
