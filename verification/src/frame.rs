//! The finished picture: rows of pixels, three bytes each.
use vstd::prelude::*;
use crate::camera::{Camera, Rgb8};

verus! {

/// A picture of `width` by `height` pixels. Pixel `(x, y)`, counted from
/// the upper left corner, has its red, green and blue byte at
/// `3 * (y * width + x)` and the two places after.
#[derive(Debug)]
pub struct Frame {
    pub width: u32,
    pub height: u32,
    pub data: Vec<u8>,
}

/// The place of pixel `(x, y)` among the pixels of a picture of width
/// `width`.
pub open spec fn pixel_index(width: int, x: int, y: int) -> int {
    y * width + x
}

/// In a picture, two pixels with one index are one pixel, and the index of
/// a pixel is below the number of pixels.
pub proof fn pixel_index_is_one_to_one(width: int, height: int, x1: int, y1: int, x2: int, y2: int)
    requires
        0 <= x1 < width,
        0 <= x2 < width,
        0 <= y1 < height,
        0 <= y2,
    ensures
        pixel_index(width, x1, y1) == pixel_index(width, x2, y2) ==> x1 == x2 && y1 == y2,
        0 <= pixel_index(width, x1, y1) < width * height,
{
    assert(y1 * width + x1 == y2 * width + x2 ==> y1 == y2) by (nonlinear_arith)
        requires
            0 <= x1 < width,
            0 <= x2 < width,
            0 <= y1,
            0 <= y2,
    ;
    assert(0 <= y1 * width + x1 < width * height) by (nonlinear_arith)
        requires
            0 <= x1 < width,
            0 <= y1 < height,
    ;
}

impl Frame {
    /// The picture holds three bytes for each of its pixels.
    pub open spec fn wf(&self) -> bool {
        self.data.len() == 3 * (self.width * self.height)
    }

    /// Pixel `(x, y)`.
    pub open spec fn spec_pixel(&self, x: int, y: int) -> Rgb8 {
        Rgb8 {
            r: self.data[3 * pixel_index(self.width as int, x, y)],
            g: self.data[3 * pixel_index(self.width as int, x, y) + 1],
            b: self.data[3 * pixel_index(self.width as int, x, y) + 2],
        }
    }

    /// A black picture, or `None` where a picture of that size has more
    /// bytes than can be counted.
    pub fn new(width: u32, height: u32) -> (frame: Option<Frame>)
        ensures
            frame.is_some() <==> 3 * (width * height) <= usize::MAX,
            frame matches Some(f) ==> {
                &&& f.wf()
                &&& f.width == width
                &&& f.height == height
                &&& forall|i: int| 0 <= i < f.data.len() ==> f.data[i] == 0
            },
    {
        assert(width * height <= 0xffff_ffff * 0xffff_ffff) by (nonlinear_arith)
            requires
                width <= 0xffff_ffff,
                height <= 0xffff_ffff,
        ;
        let bytes: u128 = 3 * ((width as u128) * (height as u128));
        if bytes > usize::MAX as u128 {
            return None;
        }
        let data: Vec<u8> = vec![0u8; bytes as usize];
        Some(Frame { width, height, data })
    }

    /// Pixel `(x, y)`, or `None` where the picture has no such pixel.
    pub fn pixel(&self, x: u32, y: u32) -> (p: Option<Rgb8>)
        requires
            self.wf(),
        ensures
            p == if x < self.width && y < self.height {
                Some(self.spec_pixel(x as int, y as int))
            } else {
                None
            },
    {
        if x < self.width && y < self.height {
            proof {
                pixel_index_is_one_to_one(
                    self.width as int,
                    self.height as int,
                    x as int,
                    y as int,
                    x as int,
                    y as int,
                );
            }
            let at: usize = 3 * ((y as usize) * (self.width as usize) + (x as usize));
            Some(Rgb8 { r: self.data[at], g: self.data[at + 1], b: self.data[at + 2] })
        } else {
            None
        }
    }

    /// Sets pixel `(x, y)` and leaves every other pixel as it is. Returns
    /// whether the picture has such a pixel; if not, nothing changes.
    pub fn put_pixel(&mut self, x: u32, y: u32, colour: Rgb8) -> (done: bool)
        requires
            old(self).wf(),
        ensures
            final(self).wf(),
            final(self).width == old(self).width,
            final(self).height == old(self).height,
            done == (x < old(self).width && y < old(self).height),
            !done ==> final(self).data@ == old(self).data@,
            done ==> final(self).spec_pixel(x as int, y as int) == colour,
            forall|x2: int, y2: int|
                0 <= x2 < old(self).width && 0 <= y2 < old(self).height && !(x2 == x && y2 == y)
                    ==> #[trigger] final(self).spec_pixel(x2, y2) == old(self).spec_pixel(x2, y2),
    {
        if x < self.width && y < self.height {
            proof {
                pixel_index_is_one_to_one(
                    self.width as int,
                    self.height as int,
                    x as int,
                    y as int,
                    x as int,
                    y as int,
                );
            }
            let at: usize = 3 * ((y as usize) * (self.width as usize) + (x as usize));
            self.data.set(at, colour.r);
            self.data.set(at + 1, colour.g);
            self.data.set(at + 2, colour.b);
            proof {
                assert forall|x2: int, y2: int|
                    0 <= x2 < old(self).width && 0 <= y2 < old(self).height && !(x2 == x && y2
                        == y) implies #[trigger] self.spec_pixel(x2, y2) == old(self).spec_pixel(
                    x2,
                    y2,
                ) by {
                    pixel_index_is_one_to_one(
                        self.width as int,
                        self.height as int,
                        x2,
                        y2,
                        x as int,
                        y as int,
                    );
                }
            }
            true
        } else {
            false
        }
    }
}

impl Camera {
    /// Takes the picture: asks `pixel` for every pixel, row after row from
    /// the top and from left to right within a row, and puts the answers
    /// into a frame of the camera's resolution. `None` where a picture of
    /// that size has more bytes than can be counted; then `pixel` is not
    /// asked.
    pub fn capture<F: Fn(u32, u32) -> Rgb8>(&self, pixel: F) -> (frame: Option<Frame>)
        requires
            forall|x: u32, y: u32|
                x < self.resolution.x && y < self.resolution.y ==> call_requires(pixel, (x, y)),
        ensures
            frame.is_some() <==> 3 * (self.resolution.x * self.resolution.y) <= usize::MAX,
            frame matches Some(f) ==> {
                &&& f.wf()
                &&& f.width == self.resolution.x
                &&& f.height == self.resolution.y
                &&& forall|x: u32, y: u32|
                    x < f.width && y < f.height ==> call_ensures(
                        pixel,
                        (x, y),
                        #[trigger] f.spec_pixel(x as int, y as int),
                    )
            },
    {
        let width: u32 = self.resolution.x;
        let height: u32 = self.resolution.y;
        let mut frame: Frame = match Frame::new(width, height) {
            Some(frame) => frame,
            None => {
                return None;
            },
        };
        let mut y: u32 = 0;
        while y < height
            invariant
                y <= height,
                width == self.resolution.x,
                height == self.resolution.y,
                frame.wf(),
                frame.width == width,
                frame.height == height,
                forall|x: u32, y: u32|
                    x < self.resolution.x && y < self.resolution.y ==> call_requires(
                        pixel,
                        (x, y),
                    ),
                forall|x2: u32, y2: u32|
                    x2 < width && y2 < y ==> call_ensures(
                        pixel,
                        (x2, y2),
                        #[trigger] frame.spec_pixel(x2 as int, y2 as int),
                    ),
            decreases height - y,
        {
            let mut x: u32 = 0;
            while x < width
                invariant
                    x <= width,
                    y < height,
                    width == self.resolution.x,
                    height == self.resolution.y,
                    frame.wf(),
                    frame.width == width,
                    frame.height == height,
                    forall|x: u32, y: u32|
                        x < self.resolution.x && y < self.resolution.y ==> call_requires(
                            pixel,
                            (x, y),
                        ),
                    forall|x2: u32, y2: u32|
                        x2 < width && (y2 < y || (y2 == y && x2 < x)) ==> call_ensures(
                            pixel,
                            (x2, y2),
                            #[trigger] frame.spec_pixel(x2 as int, y2 as int),
                        ),
                decreases width - x,
            {
                let colour: Rgb8 = pixel(x, y);
                let ghost before = frame;
                frame.put_pixel(x, y, colour);
                proof {
                    assert forall|x2: u32, y2: u32|
                        x2 < width && (y2 < y || (y2 == y && x2 < x + 1)) implies call_ensures(
                        pixel,
                        (x2, y2),
                        #[trigger] frame.spec_pixel(x2 as int, y2 as int),
                    ) by {
                        if !(x2 == x && y2 == y) {
                            assert(frame.spec_pixel(x2 as int, y2 as int) == before.spec_pixel(
                                x2 as int,
                                y2 as int,
                            ));
                        }
                    }
                }
                x = x + 1;
            }
            y = y + 1;
        }
        Some(frame)
    }
}

} // verus!
