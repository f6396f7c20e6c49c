//! One random stream for each sample of a picture, so that the samples can
//! be traced in any order and by any number of workers, and a picture can
//! be rendered again from its seed.
use vstd::prelude::*;
use crate::camera::Camera;
use crate::frame::{pixel_index, pixel_index_is_one_to_one};

verus! {

impl Camera {
    /// The place of sample `k` of pixel `(x, y)` among the samples of the
    /// picture, counted row after row and pixel after pixel.
    pub open spec fn spec_sample_index(&self, x: u32, y: u32, k: u32) -> int {
        pixel_index(
            self.samples as int,
            k as int,
            pixel_index(self.resolution.x as int, x as int, y as int),
        )
    }

    /// Whether the picture has a sample `k` of a pixel `(x, y)`.
    pub open spec fn has_sample(&self, x: u32, y: u32, k: u32) -> bool {
        x < self.resolution.x && y < self.resolution.y && k < self.samples
    }

    /// The seed of the random stream of sample `k` of pixel `(x, y)` in a
    /// picture that is rendered from `seed`: `seed`, with the bits of the
    /// sample's place flipped. `None` where the picture has no such sample,
    /// or where the place is beyond 64 bits.
    pub fn sample_seed(&self, seed: u64, x: u32, y: u32, k: u32) -> (r: Option<u64>)
        ensures
            r == if self.has_sample(x, y, k) && self.spec_sample_index(x, y, k) <= u64::MAX {
                Some(seed ^ (self.spec_sample_index(x, y, k) as u64))
            } else {
                None
            },
    {
        if x >= self.resolution.x || y >= self.resolution.y || k >= self.samples {
            return None;
        }
        proof {
            pixel_index_is_one_to_one(
                self.resolution.x as int,
                self.resolution.y as int,
                x as int,
                y as int,
                x as int,
                y as int,
            );
            let pixels = self.resolution.x * self.resolution.y;
            assert(pixels <= 0xffff_ffff * 0xffff_ffff) by (nonlinear_arith)
                requires
                    pixels == self.resolution.x * self.resolution.y,
                    self.resolution.x <= 0xffff_ffff,
                    self.resolution.y <= 0xffff_ffff,
            ;
            let pixel = pixel_index(self.resolution.x as int, x as int, y as int);
            assert(0 <= pixel * self.samples <= 0xffff_ffff * 0xffff_ffff * 0xffff_ffff)
                by (nonlinear_arith)
                requires
                    0 <= pixel <= 0xffff_ffff * 0xffff_ffff,
                    0 <= self.samples <= 0xffff_ffff,
            ;
        }
        let pixel: u128 = (y as u128) * (self.resolution.x as u128) + (x as u128);
        let index: u128 = pixel * (self.samples as u128) + (k as u128);
        if index > u64::MAX as u128 {
            None
        } else {
            Some(seed ^ (index as u64))
        }
    }
}

/// Two samples of one picture have two seeds.
pub proof fn samples_have_seeds_of_their_own(
    camera: Camera,
    seed: u64,
    x1: u32,
    y1: u32,
    k1: u32,
    x2: u32,
    y2: u32,
    k2: u32,
)
    requires
        camera.has_sample(x1, y1, k1),
        camera.has_sample(x2, y2, k2),
        camera.spec_sample_index(x1, y1, k1) <= u64::MAX,
        camera.spec_sample_index(x2, y2, k2) <= u64::MAX,
        !(x1 == x2 && y1 == y2 && k1 == k2),
    ensures
        seed ^ (camera.spec_sample_index(x1, y1, k1) as u64) != seed ^ (camera.spec_sample_index(
            x2,
            y2,
            k2,
        ) as u64),
{
    let width = camera.resolution.x as int;
    let height = camera.resolution.y as int;
    let first = pixel_index(width, x1 as int, y1 as int);
    let second = pixel_index(width, x2 as int, y2 as int);
    pixel_index_is_one_to_one(width, height, x1 as int, y1 as int, x2 as int, y2 as int);
    pixel_index_is_one_to_one(width, height, x2 as int, y2 as int, x1 as int, y1 as int);
    pixel_index_is_one_to_one(
        camera.samples as int,
        width * height,
        k1 as int,
        first,
        k2 as int,
        second,
    );
    let place1 = camera.spec_sample_index(x1, y1, k1) as u64;
    let place2 = camera.spec_sample_index(x2, y2, k2) as u64;
    assert(place1 != place2);
    assert(seed ^ place1 != seed ^ place2) by (bit_vector)
        requires
            place1 != place2,
    ;
}

} // verus!
