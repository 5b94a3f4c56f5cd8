//! The scene and the tracing of one ray through it.
//!
//! A ray is traced in steps. For each step the integrator, which the caller
//! brings, says where the ray goes; the scene says whether the trace ends
//! there, and in which colour.

use crate::camera::Camera;
use crate::hittable::{answers, Hittable};
use crate::pic::{background, Color};
use crate::scalar::Scalar;
use crate::vector::Vec3;
use vstd::prelude::*;

verus! {

/// An invisible point that pulls rays towards itself.
#[derive(Clone, Copy, Debug)]
pub struct MassPoint {
    pub position: Vec3,
    /// The mass, already multiplied by the gravitational constant.
    pub mass: Scalar,
}

/// The squared distance from a mass point below which its pull grows no
/// further: the single-precision number nearest to 0.01.
pub open spec fn min_distance_squared() -> Scalar {
    Scalar { bits: 0x3c23_d70a }
}

impl MassPoint {
    /// The squared distance by which the pull of a mass point is divided:
    /// the true one, but no less than `min_distance_squared()`, so that a
    /// ray close to the point is not thrown off without bound. A NaN stays
    /// a NaN.
    pub fn soften(distance_squared: Scalar) -> (softened: Scalar)
        ensures
            softened == if distance_squared.lt(min_distance_squared()) {
                min_distance_squared()
            } else {
                distance_squared
            },
    {
        let floor = Scalar::from_bits(0x3c23_d70a);
        if distance_squared.lt(floor) {
            floor
        } else {
            distance_squared
        }
    }
}

/// The traced particle: where it is and the direction in which it moves.
#[derive(Clone, Copy, Debug, PartialEq, Eq, Structural)]
pub struct Ray {
    pub position: Vec3,
    pub velocity: Vec3,
}

impl Ray {
    /// Moves the ray to `displaced`, where its velocity has carried it, and
    /// gives the segment that it covered: from where it was to where it is.
    pub fn step(&mut self, displaced: Vec3) -> (segment: (Vec3, Vec3))
        ensures
            segment == (old(self).position, displaced),
            final(self).position == displaced,
            final(self).velocity == old(self).velocity,
    {
        let before = self.position;
        self.position = displaced;
        (before, self.position)
    }
}

/// What the integrator found for one step of a ray: the acceleration where
/// the ray stood, the velocity once that acceleration has acted on it for
/// one time step, and the position once the ray has moved with that velocity
/// for one time step.
#[derive(Clone, Copy, Debug, PartialEq, Eq, Structural)]
pub struct Motion {
    pub acceleration: Vec3,
    pub velocity: Vec3,
    pub position: Vec3,
}

impl Motion {
    /// The ray after the step.
    pub open spec fn arrival(self) -> Ray {
        Ray { position: self.position, velocity: self.velocity }
    }
}

/// One step of a trace as it happened: the motion, and the colour in which
/// the trace ended there, if it did.
pub struct Stage {
    pub motion: Motion,
    pub verdict: Option<Color>,
}

/// Object `i` is the first of `objects` that the segment meets, and it
/// shows `shown`: every object before it says that it is not met.
pub open spec fn shows_first<H: Hittable>(
    objects: Seq<H>,
    before: Vec3,
    after: Vec3,
    i: int,
    shown: Color,
) -> bool {
    &&& 0 <= i < objects.len()
    &&& answers(objects[i], before, after, Some(shown))
    &&& forall|j: int| 0 <= j < i ==> #[trigger] answers(objects[j], before, after, None)
}

/// `color` is what a scan of `objects` in their order can give: the answer
/// of the first object that the segment meets, or nothing where every object
/// says that it is not met.
pub open spec fn scan_gives<H: Hittable>(
    objects: Seq<H>,
    before: Vec3,
    after: Vec3,
    color: Option<Color>,
) -> bool {
    match color {
        Some(shown) => exists|i: int| shows_first(objects, before, after, i, shown),
        None => forall|i: int|
            0 <= i < objects.len() ==> #[trigger] answers(objects[i], before, after, None),
    }
}

/// The ray as it stands before step `i` of a trace that began with `start`.
pub open spec fn ray_before(start: Ray, stages: Seq<Stage>, i: int) -> Ray {
    if i <= 0 {
        start
    } else {
        stages[i - 1].motion.arrival()
    }
}

/// The colour of a finished trace: that of its last step if the trace ended
/// there, the background if it ran out of steps.
pub open spec fn outcome(stages: Seq<Stage>) -> Color {
    if stages.len() > 0 && stages.last().verdict is Some {
        stages.last().verdict->0
    } else {
        background()
    }
}

/// Everything that a render is made from.
pub struct World<H: Hittable> {
    pub mass_points: Vec<MassPoint>,
    /// The objects that a ray can hit. Where a step meets several, the
    /// first in this order is seen.
    pub visible_objects: Vec<H>,
    /// Two opposite corners of the box that the simulation is confined to:
    /// the one with the smallest coordinates, then the one with the largest.
    pub boundaries: (Vec3, Vec3),
    /// The largest number of steps that a ray is followed for.
    pub max_iterations: usize,
    /// The time that one step takes.
    pub delta_t: Scalar,
    pub cam: Camera,
    /// Width of the picture in pixels.
    pub width: usize,
    /// Height of the picture in pixels.
    pub height: usize,
}

impl<H: Hittable> World<H> {
    /// `p` lies outside the box, beyond one of its six faces. A point on a
    /// face is inside, and so is one with a NaN for a coordinate, which is
    /// beyond no face.
    pub open spec fn outside(&self, p: Vec3) -> bool {
        let (low, high) = self.boundaries;
        ||| p.x.lt(low.x)
        ||| p.y.lt(low.y)
        ||| p.z.lt(low.z)
        ||| p.x.gt(high.x)
        ||| p.y.gt(high.y)
        ||| p.z.gt(high.z)
    }

    /// `verdict` is what the step `motion` of a ray that stood at `ray` can
    /// end in. An acceleration that is not finite ends the trace in the
    /// background colour, and so does a position outside the box. Otherwise
    /// the objects are scanned with the segment that the step covered.
    pub open spec fn step_gives(&self, ray: Ray, motion: Motion, verdict: Option<Color>) -> bool {
        if !motion.acceleration.is_finite() || self.outside(motion.position) {
            verdict == Some(background())
        } else {
            scan_gives(self.visible_objects@, ray.position, motion.position, verdict)
        }
    }

    /// `stages` is a whole trace of a ray that begins as `start`: each step
    /// is one that `integrate` can give for the ray as the step before left
    /// it, and ends as the scene says; no step but the last ends the trace;
    /// and the trace stops at the step that ends it, or else after
    /// `max_iterations` steps.
    pub open spec fn is_run<F: Fn(Ray) -> Motion>(
        &self,
        integrate: F,
        start: Ray,
        stages: Seq<Stage>,
    ) -> bool {
        &&& stages.len() <= self.max_iterations
        &&& forall|i: int|
            0 <= i < stages.len() ==> {
                &&& call_ensures(
                    integrate,
                    (ray_before(start, stages, i),),
                    (#[trigger] stages[i]).motion,
                )
                &&& self.step_gives(
                    ray_before(start, stages, i),
                    stages[i].motion,
                    stages[i].verdict,
                )
            }
        &&& forall|i: int| 0 <= i < stages.len() - 1 ==> (#[trigger] stages[i]).verdict is None
        &&& stages.len() == self.max_iterations || (stages.len() > 0
            && stages.last().verdict is Some)
    }

    /// Whether `p` lies outside the box.
    #[verifier::when_used_as_spec(outside)]
    pub fn is_out_of_boundaries(&self, p: Vec3) -> (out: bool)
        ensures
            out == self.outside(p),
    {
        let (low, high) = self.boundaries;
        p.x.lt(low.x) || p.y.lt(low.y) || p.z.lt(low.z) || p.x.gt(high.x) || p.y.gt(high.y)
            || p.z.gt(high.z)
    }

    /// Scans the objects in their order with the segment from `before` to
    /// `after` and gives the colour of the first that the segment meets.
    pub fn intersect(&self, before: Vec3, after: Vec3) -> (color: Option<Color>)
        ensures
            scan_gives(self.visible_objects@, before, after, color),
    {
        let mut i: usize = 0;
        while i < self.visible_objects.len()
            invariant
                i <= self.visible_objects.len(),
                forall|j: int|
                    0 <= j < i ==> #[trigger] answers(
                        self.visible_objects@[j],
                        before,
                        after,
                        None,
                    ),
            decreases self.visible_objects.len() - i,
        {
            let found = self.visible_objects[i].intersect(before, after);
            assert(answers(self.visible_objects@[i as int], before, after, found));
            if let Some(color) = found {
                assert(shows_first(self.visible_objects@, before, after, i as int, color));
                return Some(color);
            }
            i += 1;
        }
        None
    }

    /// Takes `ray` through the step `motion` and says whether the trace ends
    /// there: in the background colour where the acceleration is not finite
    /// or the ray has left the box, in the colour of an object that the step
    /// has met, or not at all. A ray whose acceleration is not finite stays
    /// as it was.
    pub fn advance(&self, ray: &mut Ray, motion: Motion) -> (verdict: Option<Color>)
        ensures
            self.step_gives(*old(ray), motion, verdict),
            *final(ray) == if motion.acceleration.is_finite() {
                motion.arrival()
            } else {
                *old(ray)
            },
    {
        if !motion.acceleration.is_finite() {
            return Some(Color::black());
        }
        ray.velocity = motion.velocity;
        let (before, after) = ray.step(motion.position);
        if self.is_out_of_boundaries(after) {
            return Some(Color::black());
        }
        self.intersect(before, after)
    }

    /// Traces one ray and gives the colour of its pixel. The ray begins as
    /// `ray`; `integrate` is asked for each step in turn, with the ray as
    /// the step before left it. The trace ends at the first step that
    /// `advance` ends it at, and in the background colour after
    /// `max_iterations` steps that did not.
    pub fn render_pixel<F: Fn(Ray) -> Motion>(&self, ray: Ray, integrate: F) -> (color: Color)
        requires
            forall|r: Ray| call_requires(integrate, (r,)),
        ensures
            exists|stages: Seq<Stage>| #[trigger]
                self.is_run(integrate, ray, stages) && color == outcome(stages),
    {
        let mut current = ray;
        let mut iterations: usize = 0;
        let ghost mut stages: Seq<Stage> = Seq::empty();
        while iterations < self.max_iterations
            invariant
                forall|r: Ray| call_requires(integrate, (r,)),
                iterations <= self.max_iterations,
                stages.len() == iterations,
                current == ray_before(ray, stages, iterations as int),
                forall|i: int|
                    0 <= i < stages.len() ==> {
                        &&& call_ensures(
                            integrate,
                            (ray_before(ray, stages, i),),
                            (#[trigger] stages[i]).motion,
                        )
                        &&& self.step_gives(
                            ray_before(ray, stages, i),
                            stages[i].motion,
                            stages[i].verdict,
                        )
                        &&& stages[i].verdict is None
                    },
            decreases self.max_iterations - iterations,
        {
            let motion = integrate(current);
            let verdict = self.advance(&mut current, motion);
            proof {
                let earlier = stages;
                stages = stages.push(Stage { motion, verdict });
                assert forall|i: int| 0 <= i < stages.len() implies ray_before(ray, stages, i)
                    == ray_before(ray, earlier, i) by {
                    if 0 < i {
                        assert(stages[i - 1] == earlier[i - 1]);
                    }
                }
                assert forall|i: int| 0 <= i < earlier.len() implies #[trigger] stages[i]
                    == earlier[i] by {}
            }
            if let Some(shown) = verdict {
                assert(stages.last().verdict == Some(shown));
                assert(self.is_run(integrate, ray, stages));
                return shown;
            }
            iterations += 1;
        }
        assert(self.is_run(integrate, ray, stages));
        Color::black()
    }
}

/// `integrate` gives the same motion whenever it is asked about the same
/// ray.
pub open spec fn integrates_alike<F: Fn(Ray) -> Motion>(integrate: F) -> bool {
    forall|ray: Ray, m1: Motion, m2: Motion|
        call_ensures(integrate, (ray,), m1) && call_ensures(integrate, (ray,), m2) ==> m1 == m2
}

/// Each of `objects` gives the same answer whenever it is asked about the
/// same segment.
pub open spec fn answer_alike<H: Hittable>(objects: Seq<H>) -> bool {
    forall|i: int, before: Vec3, after: Vec3, c1: Option<Color>, c2: Option<Color>|
        #![trigger answers(objects[i], before, after, c1), answers(objects[i], before, after, c2)]
        0 <= i < objects.len() && answers(objects[i], before, after, c1) && answers(
            objects[i],
            before,
            after,
            c2,
        ) ==> c1 == c2
}

/// In a scene without visible objects every trace ends in the background
/// colour. If moreover no step leaves the box or has an acceleration that is
/// not finite, as with no mass points and a box that is large enough, the
/// trace takes all of `max_iterations` steps.
pub proof fn lemma_empty_scene_is_background<H: Hittable, F: Fn(Ray) -> Motion>(
    world: World<H>,
    integrate: F,
    start: Ray,
    stages: Seq<Stage>,
)
    requires
        world.visible_objects@.len() == 0,
        world.is_run(integrate, start, stages),
    ensures
        outcome(stages) == background(),
        (forall|i: int|
            0 <= i < stages.len() ==> (#[trigger] stages[i]).motion.acceleration.is_finite()
                && !world.outside(stages[i].motion.position)) ==> stages.len()
            == world.max_iterations,
{
    if stages.len() > 0 {
        let last = stages.len() - 1;
        assert(world.step_gives(
            ray_before(start, stages, last),
            stages[last].motion,
            stages[last].verdict,
        ));
    }
}

/// A ray whose first step ends outside the box, as that of a ray that
/// starts outside it does, is given up after that one step, in the
/// background colour.
pub proof fn lemma_escape_ends_trace<H: Hittable, F: Fn(Ray) -> Motion>(
    world: World<H>,
    integrate: F,
    start: Ray,
    stages: Seq<Stage>,
)
    requires
        world.max_iterations >= 1,
        world.is_run(integrate, start, stages),
        stages.len() > 0 ==> world.outside(stages[0].motion.position),
    ensures
        stages.len() == 1,
        outcome(stages) == background(),
{
    assert(world.step_gives(ray_before(start, stages, 0), stages[0].motion, stages[0].verdict));
}

/// Where the objects answer alike, a scan has one result.
pub proof fn lemma_scan_is_determined<H: Hittable>(
    objects: Seq<H>,
    before: Vec3,
    after: Vec3,
    c1: Option<Color>,
    c2: Option<Color>,
)
    requires
        answer_alike(objects),
        scan_gives(objects, before, after, c1),
        scan_gives(objects, before, after, c2),
    ensures
        c1 == c2,
{
    if c1 is Some && c2 is Some {
        let i1 = choose|i: int| shows_first(objects, before, after, i, c1->0);
        let i2 = choose|i: int| shows_first(objects, before, after, i, c2->0);
        if i1 < i2 {
            assert(answers(objects[i1], before, after, None));
        } else if i2 < i1 {
            assert(answers(objects[i2], before, after, None));
        }
    } else if c1 is Some {
        let i1 = choose|i: int| shows_first(objects, before, after, i, c1->0);
        assert(answers(objects[i1], before, after, None));
    } else if c2 is Some {
        let i2 = choose|i: int| shows_first(objects, before, after, i, c2->0);
        assert(answers(objects[i2], before, after, None));
    }
}

/// Two traces of the same ray through the same scene agree in every step
/// that both have taken.
proof fn lemma_runs_agree_at<H: Hittable, F: Fn(Ray) -> Motion>(
    world: World<H>,
    integrate: F,
    start: Ray,
    first: Seq<Stage>,
    second: Seq<Stage>,
    i: int,
)
    requires
        integrates_alike(integrate),
        answer_alike(world.visible_objects@),
        world.is_run(integrate, start, first),
        world.is_run(integrate, start, second),
        0 <= i < first.len(),
        i < second.len(),
    ensures
        first[i] == second[i],
    decreases i,
{
    if i > 0 {
        lemma_runs_agree_at(world, integrate, start, first, second, i - 1);
    }
    let ray = ray_before(start, first, i);
    assert(ray == ray_before(start, second, i));
    assert(call_ensures(integrate, (ray,), first[i].motion));
    assert(call_ensures(integrate, (ray,), second[i].motion));
    let motion = first[i].motion;
    assert(world.step_gives(ray, motion, first[i].verdict));
    assert(world.step_gives(ray, motion, second[i].verdict));
    if motion.acceleration.is_finite() && !world.outside(motion.position) {
        lemma_scan_is_determined(
            world.visible_objects@,
            ray.position,
            motion.position,
            first[i].verdict,
            second[i].verdict,
        );
    }
}

/// Rendering is repeatable: where the integrator and the objects answer
/// alike whenever they are asked the same, two traces of the same ray
/// through the same scene take the same steps and end in the same colour.
pub proof fn lemma_render_is_repeatable<H: Hittable, F: Fn(Ray) -> Motion>(
    world: World<H>,
    integrate: F,
    start: Ray,
    first: Seq<Stage>,
    second: Seq<Stage>,
)
    requires
        integrates_alike(integrate),
        answer_alike(world.visible_objects@),
        world.is_run(integrate, start, first),
        world.is_run(integrate, start, second),
    ensures
        first == second,
        outcome(first) == outcome(second),
{
    if first.len() < second.len() {
        if first.len() > 0 {
            lemma_runs_agree_at(world, integrate, start, first, second, first.len() - 1);
        }
    } else if second.len() < first.len() {
        if second.len() > 0 {
            lemma_runs_agree_at(world, integrate, start, first, second, second.len() - 1);
        }
    } else {
        assert forall|i: int| 0 <= i < first.len() implies first[i] == second[i] by {
            lemma_runs_agree_at(world, integrate, start, first, second, i);
        }
        assert(first =~= second);
    }
}

} // verus!
