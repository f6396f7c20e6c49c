//! Materials: whether a surface sends a ray on, and in which way.
use vstd::prelude::*;
use crate::scalar::Scalar;

verus! {

/// The way in which a material sends a ray on.
#[derive(Clone, Copy, Debug, PartialEq, Eq, Structural)]
pub enum Lobe {
    /// Into the hemisphere about the normal, weighted by the cosine.
    Cosine,
    /// Towards an important object of the scene.
    Important,
    /// Mirrored about the normal and perturbed by the material's fuzz.
    Mirror,
    /// Mirrored about the normal.
    Reflect,
    /// Bent through the surface by Snell's law.
    Refract,
    /// In any direction, each as likely as another.
    Uniform,
}

/// The side of the surface to which the origin of a scattered ray is moved, so
/// that the ray does not meet the surface it leaves.
#[derive(Clone, Copy, Debug, PartialEq, Eq, Structural)]
pub enum Nudge {
    /// Along the normal.
    Out,
    /// Against the normal.
    In,
}

impl Lobe {
    /// What `nudge` returns.
    pub open spec fn spec_nudge(self) -> Nudge {
        if self == Lobe::Refract {
            Nudge::In
        } else {
            Nudge::Out
        }
    }

    /// Where the scattered ray starts: inside the surface for a ray that
    /// passes through it, outside for every other.
    pub fn nudge(self) -> (n: Nudge)
        ensures
            n == self.spec_nudge(),
    {
        match self {
            Lobe::Refract => Nudge::In,
            _ => Nudge::Out,
        }
    }
}

/// The side from which a ray meets a surface.
#[derive(Clone, Copy, Debug, PartialEq, Eq, Structural)]
pub enum Side {
    /// The ray runs against the normal: it enters the body.
    Entering,
    /// The ray runs along the normal: it leaves the body.
    Leaving,
}

/// What every material says of itself.
pub trait Material {
    spec fn spec_important(&self) -> bool;

    spec fn spec_emits(&self) -> bool;

    /// Whether light is to be looked for in the direction of an object of
    /// this material.
    fn important(&self) -> (r: bool)
        ensures
            r == self.spec_important(),
    ;

    /// Whether the material gives off light of its own.
    fn emits(&self) -> (r: bool)
        ensures
            r == self.spec_emits(),
    ;
}

/// A diffuse surface.
#[derive(Debug)]
pub struct Lambertian<T> {
    pub albedo: T,
}

/// A mirror, blurred by `fuzz`.
#[derive(Debug)]
pub struct Metal<T> {
    pub albedo: T,
    pub fuzz: Scalar,
}

/// Glass: a body that bends light by the ratio `refraction`.
#[derive(Debug)]
pub struct Dielectric<T> {
    pub refraction: Scalar,
    pub attenuation: T,
}

/// A light.
#[derive(Debug)]
pub struct DiffuseLight<T> {
    pub value: T,
}

/// The inside of a volume.
#[derive(Debug)]
pub struct Isotropic<T> {
    pub albedo: T,
}

impl<T> Material for Lambertian<T> {
    open spec fn spec_important(&self) -> bool {
        false
    }

    open spec fn spec_emits(&self) -> bool {
        false
    }

    fn important(&self) -> (r: bool) {
        false
    }

    fn emits(&self) -> (r: bool) {
        false
    }
}

impl<T> Material for Metal<T> {
    open spec fn spec_important(&self) -> bool {
        false
    }

    open spec fn spec_emits(&self) -> bool {
        false
    }

    fn important(&self) -> (r: bool) {
        false
    }

    fn emits(&self) -> (r: bool) {
        false
    }
}

impl<T> Material for Dielectric<T> {
    open spec fn spec_important(&self) -> bool {
        true
    }

    open spec fn spec_emits(&self) -> bool {
        false
    }

    fn important(&self) -> (r: bool) {
        true
    }

    fn emits(&self) -> (r: bool) {
        false
    }
}

impl<T> Material for DiffuseLight<T> {
    open spec fn spec_important(&self) -> bool {
        true
    }

    open spec fn spec_emits(&self) -> bool {
        true
    }

    fn important(&self) -> (r: bool) {
        true
    }

    fn emits(&self) -> (r: bool) {
        true
    }
}

impl<T> Material for Isotropic<T> {
    open spec fn spec_important(&self) -> bool {
        false
    }

    open spec fn spec_emits(&self) -> bool {
        false
    }

    fn important(&self) -> (r: bool) {
        false
    }

    fn emits(&self) -> (r: bool) {
        false
    }
}

impl<T> Lambertian<T> {
    /// A diffuse surface always sends the ray on. Where an important
    /// direction is at hand (`importance`), the toss of a coin (`coin`)
    /// decides between it and the cosine-weighted hemisphere.
    pub fn scatter(&self, importance: bool, coin: bool) -> (lobe: Option<Lobe>)
        ensures
            lobe == Some(
                if importance && coin {
                    Lobe::Important
                } else {
                    Lobe::Cosine
                },
            ),
    {
        if importance && coin {
            Some(Lobe::Important)
        } else {
            Some(Lobe::Cosine)
        }
    }
}

impl<T> Lambertian<T> {
    /// What `factor` returns.
    pub open spec fn spec_factor(importance: bool, ratio: Scalar) -> Scalar {
        if importance {
            ratio.spec_clamp(Scalar::spec_zero(), Scalar::spec_one())
        } else {
            Scalar::spec_one()
        }
    }

    /// The factor by which a diffuse surface scales its albedo.
    ///
    /// A direction drawn from the cosine-weighted hemisphere alone has the
    /// cosine of its angle cancel against the density with which it was
    /// drawn: the factor is one, and the attenuation is the albedo. Where
    /// an important direction is at hand (`importance`), `ratio` is the
    /// cosine density divided by the mean of the two densities; the factor
    /// is that ratio, kept between zero and one. So the surface never gives
    /// back more light than its albedo lets it.
    pub fn factor(&self, importance: bool, ratio: Scalar) -> (w: Scalar)
        ensures
            w == Self::spec_factor(importance, ratio),
            Scalar::spec_zero()@ <= w@ <= Scalar::spec_one()@,
    {
        if importance {
            ratio.clamp(Scalar::zero(), Scalar::one())
        } else {
            Scalar::one()
        }
    }
}

impl<T> Metal<T> {
    /// A mirror sends the ray on unless the mirrored and perturbed direction
    /// points into the surface. `out_dot_normal` is the dot product of that
    /// direction with the normal.
    pub fn scatter(&self, out_dot_normal: Scalar) -> (lobe: Option<Lobe>)
        ensures
            lobe == if out_dot_normal@ > Scalar::spec_zero()@ {
                Some(Lobe::Mirror)
            } else {
                None
            },
    {
        if out_dot_normal.is_positive() {
            Some(Lobe::Mirror)
        } else {
            None
        }
    }
}

impl<T> Dielectric<T> {
    /// The side from which the ray comes, by the dot product of its
    /// direction with the normal. A ray that leaves the body sees the
    /// normal turned round and the ratio `refraction`; one that enters sees
    /// the ratio `1 / refraction`.
    pub fn side(&self, ray_dot_normal: Scalar) -> (s: Side)
        ensures
            s == if ray_dot_normal@ > Scalar::spec_zero()@ {
                Side::Leaving
            } else {
                Side::Entering
            },
    {
        if ray_dot_normal.is_positive() {
            Side::Leaving
        } else {
            Side::Entering
        }
    }

    /// What `scatter` returns.
    pub open spec fn spec_scatter(&self, refracts: bool, sample: Scalar, reflectance: Scalar) -> Lobe {
        if !refracts {
            Lobe::Reflect
        } else if self.refraction == Scalar::spec_one() {
            Lobe::Refract
        } else if reflectance@ <= Scalar::spec_zero()@ || sample@ > reflectance@ {
            Lobe::Refract
        } else {
            Lobe::Reflect
        }
    }

    /// Glass always sends the ray on, through the surface or mirrored.
    ///
    /// Where no refracted direction exists (`refracts` is false) the ray is
    /// mirrored, whatever the glass. A ray that can pass does pass where
    /// the ratio of the refractive indices is one, for there is no surface
    /// to speak of; where the surface reflects nothing (`reflectance` is
    /// not above zero); and where `sample`, drawn evenly from between 0
    /// and 1, is above the reflectance. Every other ray is mirrored.
    pub fn scatter(&self, refracts: bool, sample: Scalar, reflectance: Scalar) -> (lobe: Option<
        Lobe,
    >)
        ensures
            lobe == Some(self.spec_scatter(refracts, sample, reflectance)),
    {
        if !refracts {
            Some(Lobe::Reflect)
        } else if self.refraction == Scalar::one() {
            Some(Lobe::Refract)
        } else if !reflectance.is_positive() || reflectance.lt(&sample) {
            Some(Lobe::Refract)
        } else {
            Some(Lobe::Reflect)
        }
    }
}

/// Glass whose ratio of refractive indices is one passes every ray that can
/// pass: it mirrors none of them, whatever the draw and the reflectance,
/// and the ray goes on from inside the surface.
pub proof fn equal_indices_pass_every_ray<T>(
    glass: Dielectric<T>,
    refracts: bool,
    sample: Scalar,
    reflectance: Scalar,
)
    requires
        glass.refraction == Scalar::spec_one(),
        refracts,
    ensures
        glass.spec_scatter(refracts, sample, reflectance) == Lobe::Refract,
        glass.spec_scatter(refracts, sample, reflectance).spec_nudge() == Nudge::In,
{
}

/// A ray for which no refracted direction exists is mirrored, whatever the
/// glass, the draw and the reflectance, and goes on from outside the
/// surface.
pub proof fn no_passage_is_mirrored<T>(glass: Dielectric<T>, sample: Scalar, reflectance: Scalar)
    ensures
        glass.spec_scatter(false, sample, reflectance) == Lobe::Reflect,
        glass.spec_scatter(false, sample, reflectance).spec_nudge() == Nudge::Out,
{
}

/// A surface that reflects nothing mirrors no ray that can pass, whatever
/// is drawn.
pub proof fn no_reflectance_no_mirror<T>(
    glass: Dielectric<T>,
    sample: Scalar,
    reflectance: Scalar,
)
    requires
        reflectance@ <= Scalar::spec_zero()@,
    ensures
        glass.spec_scatter(true, sample, reflectance) == Lobe::Refract,
{
}

/// A diffuse surface that scatters into the cosine-weighted hemisphere
/// alone attenuates by its albedo: the factor is one, whatever the density.
pub proof fn cosine_lobe_keeps_the_albedo<T>(ratio: Scalar)
    ensures
        Lambertian::<T>::spec_factor(false, ratio) == Scalar::spec_one(),
{
}

impl<T> DiffuseLight<T> {
    /// A light sends no ray on.
    pub fn scatter(&self) -> (lobe: Option<Lobe>)
        ensures
            lobe.is_none(),
    {
        None
    }
}

impl<T> Isotropic<T> {
    /// The inside of a volume sends the ray on in any direction.
    pub fn scatter(&self) -> (lobe: Option<Lobe>)
        ensures
            lobe == Some(Lobe::Uniform),
    {
        Some(Lobe::Uniform)
    }
}

/// Whether light passes through a surface. `discriminant` is
/// `1 - r * r * (1 - c * c)`, where `r` is the ratio of the refractive indices
/// and `c` the cosine of the angle of incidence; where it is not above zero
/// all light is reflected.
pub fn refracts(discriminant: Scalar) -> (r: bool)
    ensures
        r == (discriminant@ > Scalar::spec_zero()@),
{
    discriminant.is_positive()
}

/// Only a ray that is bent through the surface starts inside it.
pub proof fn only_refraction_starts_inside(lobe: Lobe)
    ensures
        lobe.spec_nudge() == Nudge::In <==> lobe == Lobe::Refract,
{
}

} // verus!
