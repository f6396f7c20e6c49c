//! The camera: its settings, checked once, and the frame it fills pixel by
//! pixel.
use vstd::prelude::*;
use crate::scalar::Scalar;
use crate::space::{Point, Vector};

verus! {

/// The size of the picture in pixels.
#[derive(Clone, Copy, Debug, PartialEq, Eq, Structural)]
pub struct Resolution {
    pub x: u32,
    pub y: u32,
}

/// Why a camera cannot be set up.
#[derive(Clone, Copy, Debug, PartialEq, Eq, Structural)]
pub enum ConfigError {
    /// The picture has no width or no height.
    ZeroResolution,
    /// The view has no basis: the camera looks along its up direction, or
    /// looks at the point where it stands.
    DegenerateBasis,
}

/// The view of a camera: where it stands, the upper left corner of the plane
/// it looks at, the two edges of that plane, and unit vectors to its right
/// and upwards.
#[derive(Clone, Copy, Debug, PartialEq, Eq, Structural)]
pub struct View {
    pub origin: Point,
    pub top_left_corner: Point,
    pub horizontal: Vector,
    pub vertical: Vector,
    pub u: Vector,
    pub v: Vector,
}

/// A camera that is ready to take a picture.
#[derive(Clone, Copy, Debug, PartialEq, Eq, Structural)]
pub struct Camera {
    pub view: View,
    pub lens_radius: Scalar,
    pub shutter_speed: Scalar,
    pub resolution: Resolution,
    pub samples: u32,
}

/// One pixel of the picture, in display colours.
#[derive(Clone, Copy, Debug, PartialEq, Eq, Structural)]
pub struct Rgb8 {
    pub r: u8,
    pub g: u8,
    pub b: u8,
}

impl View {
    /// Neither `u` nor `v` is the zero vector.
    pub open spec fn spans(&self) -> bool {
        !self.u.spec_is_zero() && !self.v.spec_is_zero()
    }
}

impl Camera {
    /// The picture has pixels and the view has a basis.
    pub open spec fn wf(&self) -> bool {
        &&& self.resolution.x > 0
        &&& self.resolution.y > 0
        &&& self.view.spans()
    }

    /// A quantity of the lens, with zero for one that is no number.
    pub open spec fn or_zero(quantity: Option<Scalar>) -> Scalar {
        match quantity {
            Some(q) => q,
            None => Scalar::spec_zero(),
        }
    }

    /// What `new` returns. A quantity that is no number stands as `None`.
    pub open spec fn spec_new(
        view: Option<View>,
        lens_radius: Option<Scalar>,
        shutter_speed: Option<Scalar>,
        resolution: Resolution,
        samples: u32,
    ) -> Result<Camera, ConfigError> {
        if resolution.x == 0 || resolution.y == 0 {
            Err(ConfigError::ZeroResolution)
        } else if view.is_none() || !view.unwrap().spans() {
            Err(ConfigError::DegenerateBasis)
        } else {
            Ok(
                Camera {
                    view: view.unwrap(),
                    lens_radius: Self::or_zero(lens_radius),
                    shutter_speed: Self::or_zero(shutter_speed),
                    resolution,
                    samples,
                },
            )
        }
    }

    /// The camera with the given settings, or the first of these faults: a
    /// picture without pixels, a view without a basis. A quantity that is
    /// no number is given as `None`: a view with such a quantity has no
    /// basis, and a lens radius or a shutter speed that is no number counts
    /// as zero.
    pub fn new(
        view: Option<View>,
        lens_radius: Option<Scalar>,
        shutter_speed: Option<Scalar>,
        resolution: Resolution,
        samples: u32,
    ) -> (r: Result<Camera, ConfigError>)
        ensures
            r == Self::spec_new(view, lens_radius, shutter_speed, resolution, samples),
            r matches Ok(camera) ==> camera.wf(),
    {
        if resolution.x == 0 || resolution.y == 0 {
            return Err(ConfigError::ZeroResolution);
        }
        let view: View = match view {
            Some(view) => view,
            None => {
                return Err(ConfigError::DegenerateBasis);
            },
        };
        if view.u.is_zero() || view.v.is_zero() {
            return Err(ConfigError::DegenerateBasis);
        }
        let lens_radius: Scalar = match lens_radius {
            Some(radius) => radius,
            None => Scalar::zero(),
        };
        let shutter_speed: Scalar = match shutter_speed {
            Some(speed) => speed,
            None => Scalar::zero(),
        };
        Ok(Camera { view, lens_radius, shutter_speed, resolution, samples })
    }

    /// Whether the camera has no lens to speak of. Through a pinhole every
    /// ray for one place of the picture is the same ray: no point of a lens
    /// is drawn.
    pub fn pinhole(&self) -> (r: bool)
        ensures
            r == (self.lens_radius == Scalar::spec_zero()),
    {
        self.lens_radius == Scalar::zero()
    }
}

} // verus!
