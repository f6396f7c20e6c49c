//! Shapes, as far as their intersection is decided without geometry.
use vstd::prelude::*;
use crate::scalar::Scalar;

verus! {

/// A medium of constant density that fills the shape `shape`: fog or smoke.
#[derive(Debug)]
pub struct ConstantMedium<S> {
    pub shape: S,
    pub density: Scalar,
}

impl<S> ConstantMedium<S> {
    /// What `scatters` returns.
    pub open spec fn spec_scatters(
        entry: Option<Scalar>,
        exit: Option<Scalar>,
        free_path: Scalar,
        chord: Scalar,
    ) -> bool {
        entry.is_some() && exit.is_some() && free_path@ < chord@
    }

    /// Whether a ray is scattered inside the medium.
    ///
    /// `entry` is where the ray meets the shape, `exit` where it meets the
    /// shape again when cast from just behind the entry, `chord` the length
    /// of its way through the medium, and `free_path` a length drawn from
    /// the exponential distribution whose rate is the density. The ray is
    /// scattered where it enters and leaves the shape and the free path is
    /// shorter than the chord.
    pub fn scatters(
        &self,
        entry: Option<Scalar>,
        exit: Option<Scalar>,
        free_path: Scalar,
        chord: Scalar,
    ) -> (hit: bool)
        ensures
            hit == Self::spec_scatters(entry, exit, free_path, chord),
    {
        entry.is_some() && exit.is_some() && free_path.lt(&chord)
    }
}

} // verus!
