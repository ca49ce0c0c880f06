use vstd::prelude::*;

use crate::color::{black, maroon, white, Rgba};
use vstd::arithmetic::div_mod::lemma_fundamental_div_mod_converse;

verus! {

/// A rectangular pixel buffer in row-major order.
///
/// Both the source pattern and the tiles cut from it are images.
#[derive(Debug, Clone)]
pub struct Image {
    pub width: usize,
    pub height: usize,
    pub pixels: Vec<Rgba>,
}

/// The pixel index `y * w + x` stays inside a `w * h` buffer.
pub proof fn lemma_row_major_index(x: int, y: int, w: int, h: int)
    requires
        0 <= x < w,
        0 <= y < h,
    ensures
        0 <= y * w + x < w * h,
{
    assert(y * w + x < w * h) by (nonlinear_arith)
        requires
            0 <= x < w,
            0 <= y < h,
    ;
    assert(0 <= y * w) by (nonlinear_arith)
        requires
            0 <= y,
            0 <= w,
    ;
}

/// The color of the built-in sample pattern at a given coordinate:
/// a white border, a maroon center block, black in between.
pub open spec fn city_color(x: int, y: int) -> Rgba {
    if x == 0 || y == 0 || x == 8 || y == 8 {
        white()
    } else if 2 <= x <= 6 && 2 <= y <= 6 {
        maroon()
    } else {
        black()
    }
}

impl Image {
    /// The pixel buffer holds exactly one sample per coordinate.
    pub open spec fn wf(self) -> bool {
        self.pixels@.len() == self.width * self.height
    }

    /// The sample at column `x`, row `y`.
    pub open spec fn pix(self, x: int, y: int) -> Rgba {
        self.pixels@[y * self.width + x]
    }

    /// The color of the center pixel, used as a tile's representative color.
    pub open spec fn center_color(self) -> Rgba {
        self.pix(self.width as int / 2, self.height as int / 2)
    }

    /// This image equals the `self.width x self.height` block of `src` that
    /// starts at `(x, y)`, sampled with toroidal wraparound.
    pub open spec fn is_slice_of(self, src: Image, x: int, y: int) -> bool {
        forall|sx: int, sy: int|
            0 <= sx < self.width && 0 <= sy < self.height ==> #[trigger] self.pix(sx, sy)
                == src.pix((x + sx) % (src.width as int), (y + sy) % (src.height as int))
    }

    pub fn pixel_at(&self, x: usize, y: usize) -> (p: Rgba)
        requires
            self.wf(),
            x < self.width,
            y < self.height,
        ensures
            p == self.pix(x as int, y as int),
    {
        // a Vec's length fits in usize, which bounds the index computation below
        let len = self.pixels.len();
        proof {
            lemma_row_major_index(x as int, y as int, self.width as int, self.height as int);
        }
        self.pixels[y * self.width + x]
    }

    /// A fresh image with every pixel black.
    pub fn new(width: usize, height: usize) -> (r: Image)
        requires
            width * height <= usize::MAX,
        ensures
            r.wf(),
            r.width == width,
            r.height == height,
            forall|x: int, y: int|
                0 <= x < width && 0 <= y < height ==> #[trigger] r.pix(x, y) == black(),
    {
        let n = width * height;
        let mut pixels: Vec<Rgba> = Vec::new();
        let mut i: usize = 0;
        while i < n
            invariant
                i <= n,
                pixels@.len() == i,
                forall|k: int| 0 <= k < i ==> pixels@[k] == black(),
            decreases n - i,
        {
            pixels.push(Rgba { r: 0, g: 0, b: 0, a: 255 });
            i += 1;
        }
        let r = Image { width, height, pixels };
        proof {
            assert forall|x: int, y: int|
                0 <= x < width && 0 <= y < height implies #[trigger] r.pix(x, y) == black() by {
                lemma_row_major_index(x, y, width as int, height as int);
            }
        }
        r
    }

    /// The built-in 9 x 9 sample pattern.
    pub fn city() -> (r: Image)
        ensures
            r.wf(),
            r.width == 9,
            r.height == 9,
            forall|x: int, y: int|
                0 <= x < 9 && 0 <= y < 9 ==> #[trigger] r.pix(x, y) == city_color(x, y),
    {
        let mut pixels: Vec<Rgba> = Vec::new();
        let mut y: usize = 0;
        while y < 9
            invariant
                y <= 9,
                pixels@.len() == y * 9,
                forall|xi: int, yi: int|
                    0 <= xi < 9 && 0 <= yi < y ==> pixels@[yi * 9 + xi] == city_color(xi, yi),
            decreases 9 - y,
        {
            let mut x: usize = 0;
            while x < 9
                invariant
                    y < 9,
                    x <= 9,
                    pixels@.len() == y * 9 + x,
                    forall|xi: int, yi: int|
                        0 <= xi < 9 && 0 <= yi < y ==> pixels@[yi * 9 + xi] == city_color(xi, yi),
                    forall|xi: int| 0 <= xi < x ==> pixels@[y * 9 + xi] == city_color(xi, y as int),
                decreases 9 - x,
            {
                let c = if x == 0 || y == 0 || x == 8 || y == 8 {
                    Rgba { r: 255, g: 255, b: 255, a: 255 }
                } else if 2 <= x && x <= 6 && 2 <= y && y <= 6 {
                    Rgba { r: 190, g: 33, b: 55, a: 255 }
                } else {
                    Rgba { r: 0, g: 0, b: 0, a: 255 }
                };
                pixels.push(c);
                x += 1;
                proof {
                    assert forall|xi: int, yi: int|
                        0 <= xi < 9 && 0 <= yi < y implies pixels@[yi * 9 + xi] == city_color(
                        xi,
                        yi,
                    ) by {
                        lemma_row_major_index(xi, yi, 9, y as int);
                    }
                }
            }
            y += 1;
        }
        let r = Image { width: 9, height: 9, pixels };
        proof {
            assert forall|x: int, y: int|
                0 <= x < 9 && 0 <= y < 9 implies #[trigger] r.pix(x, y) == city_color(x, y) by {
                lemma_row_major_index(x, y, 9, 9);
            }
        }
        r
    }

    /// Cut one `slice_width x slice_height` tile per source position, row-major,
    /// sampling with toroidal wraparound.
    pub fn slices(&self, slice_width: usize, slice_height: usize) -> (r: Vec<Image>)
        requires
            self.wf(),
            self.width >= 1,
            self.height >= 1,
            slice_width >= 1,
            slice_height >= 1,
            slice_width * slice_height <= usize::MAX,
            self.width + slice_width <= usize::MAX,
            self.height + slice_height <= usize::MAX,
        ensures
            r@.len() == self.width * self.height,
            forall|k: int|
                0 <= k < r@.len() ==> {
                    &&& (#[trigger] r@[k]).wf()
                    &&& r@[k].width == slice_width
                    &&& r@[k].height == slice_height
                    &&& r@[k].is_slice_of(*self, k % (self.width as int), k / (self.width as int))
                },
    {
        let mut out: Vec<Image> = Vec::new();
        let mut y: usize = 0;
        while y < self.height
            invariant
                self.wf(),
                self.width >= 1,
                self.height >= 1,
                slice_width >= 1,
                slice_height >= 1,
                slice_width * slice_height <= usize::MAX,
                self.width + slice_width <= usize::MAX,
                self.height + slice_height <= usize::MAX,
                y <= self.height,
                out@.len() == y * self.width,
                forall|k: int|
                    0 <= k < out@.len() ==> {
                        &&& (#[trigger] out@[k]).wf()
                        &&& out@[k].width == slice_width
                        &&& out@[k].height == slice_height
                        &&& out@[k].is_slice_of(
                            *self,
                            k % (self.width as int),
                            k / (self.width as int),
                        )
                    },
            decreases self.height - y,
        {
            let mut x: usize = 0;
            proof {
                lemma_row_major_index(0, y as int, self.width as int, self.height as int);
            }
            while x < self.width
                invariant
                    self.wf(),
                    self.width >= 1,
                    self.height >= 1,
                    slice_width >= 1,
                    slice_height >= 1,
                    slice_width * slice_height <= usize::MAX,
                    self.width + slice_width <= usize::MAX,
                    self.height + slice_height <= usize::MAX,
                    y < self.height,
                    x <= self.width,
                    out@.len() == y * self.width + x,
                    forall|k: int|
                        0 <= k < out@.len() ==> {
                            &&& (#[trigger] out@[k]).wf()
                            &&& out@[k].width == slice_width
                            &&& out@[k].height == slice_height
                            &&& out@[k].is_slice_of(
                                *self,
                                k % (self.width as int),
                                k / (self.width as int),
                            )
                        },
                decreases self.width - x,
            {
                let slice = self.slice_at(x, y, slice_width, slice_height);
                out.push(slice);
                proof {
                    let k = y * (self.width as int) + x;
                    lemma_fundamental_div_mod_converse(
                        k,
                        self.width as int,
                        y as int,
                        x as int,
                    );
                    lemma_row_major_index(x as int, y as int, self.width as int, self.height as int);
                }
                x += 1;
            }
            proof {
                assert((y + 1) * self.width == y * self.width + self.width) by (nonlinear_arith);
            }
            y += 1;
        }
        proof {
            assert(self.height * self.width == self.width * self.height) by (nonlinear_arith);
        }
        out
    }

    /// One toroidally sampled tile, starting at `(x, y)`.
    fn slice_at(&self, x: usize, y: usize, slice_width: usize, slice_height: usize) -> (r: Image)
        requires
            self.wf(),
            self.width >= 1,
            self.height >= 1,
            x < self.width,
            y < self.height,
            slice_width * slice_height <= usize::MAX,
            self.width + slice_width <= usize::MAX,
            self.height + slice_height <= usize::MAX,
        ensures
            r.wf(),
            r.width == slice_width,
            r.height == slice_height,
            r.is_slice_of(*self, x as int, y as int),
    {
        let mut pixels: Vec<Rgba> = Vec::new();
        let mut sy: usize = 0;
        while sy < slice_height
            invariant
                self.wf(),
                self.width >= 1,
                self.height >= 1,
                x < self.width,
                y < self.height,
                self.width + slice_width <= usize::MAX,
                self.height + slice_height <= usize::MAX,
                sy <= slice_height,
                pixels@.len() == sy * slice_width,
                forall|px: int, py: int|
                    0 <= px < slice_width && 0 <= py < sy ==> #[trigger] pixels@[py * slice_width
                        + px] == self.pix(
                        (x + px) % (self.width as int),
                        (y + py) % (self.height as int),
                    ),
            decreases slice_height - sy,
        {
            let mut sx: usize = 0;
            while sx < slice_width
                invariant
                    self.wf(),
                    self.width >= 1,
                    self.height >= 1,
                    x < self.width,
                    y < self.height,
                    self.width + slice_width <= usize::MAX,
                    self.height + slice_height <= usize::MAX,
                    sy < slice_height,
                    sx <= slice_width,
                    pixels@.len() == sy * slice_width + sx,
                    forall|px: int, py: int|
                        0 <= px < slice_width && 0 <= py < sy ==> #[trigger] pixels@[py
                            * slice_width + px] == self.pix(
                            (x + px) % (self.width as int),
                            (y + py) % (self.height as int),
                        ),
                    forall|px: int|
                        0 <= px < sx ==> #[trigger] pixels@[sy * slice_width + px] == self.pix(
                            (x + px) % (self.width as int),
                            (y + sy) % (self.height as int),
                        ),
                decreases slice_width - sx,
            {
                let px = (x + sx) % self.width;
                let py = (y + sy) % self.height;
                let p = self.pixel_at(px, py);
                pixels.push(p);
                proof {
                    assert forall|qx: int, qy: int|
                        0 <= qx < slice_width && 0 <= qy < sy implies #[trigger] pixels@[qy
                        * slice_width + qx] == self.pix(
                        (x + qx) % (self.width as int),
                        (y + qy) % (self.height as int),
                    ) by {
                        lemma_row_major_index(qx, qy, slice_width as int, sy as int);
                    }
                }
                sx += 1;
            }
            proof {
                assert((sy + 1) * slice_width == sy * slice_width + slice_width)
                    by (nonlinear_arith);
            }
            sy += 1;
        }
        proof {
            assert(slice_height * slice_width == slice_width * slice_height) by (nonlinear_arith);
        }
        let r = Image { width: slice_width, height: slice_height, pixels };
        proof {
            assert forall|sx: int, sy: int|
                0 <= sx < slice_width && 0 <= sy < slice_height implies #[trigger] r.pix(sx, sy)
                == self.pix(
                (x + sx) % (self.width as int),
                (y + sy) % (self.height as int),
            ) by {
                lemma_row_major_index(sx, sy, slice_width as int, slice_height as int);
            }
        }
        r
    }

    /// Both images have the same footprint.
    pub open spec fn same_dims(self, other: Image) -> bool {
        self.width == other.width && self.height == other.height
    }

    /// `self` fits to the north of `other`: all but the bottom row of `self`
    /// equals all but the top row of `other`.
    pub open spec fn spec_fits_top(self, other: Image) -> bool {
        forall|x: int, y: int|
            0 <= x < self.width && 0 <= y < self.height - 1 ==> #[trigger] self.pix(x, y)
                == other.pix(x, y + 1)
    }

    /// `self` fits to the south of `other`: all but the top row of `self`
    /// equals all but the bottom row of `other`.
    pub open spec fn spec_fits_bottom(self, other: Image) -> bool {
        forall|x: int, y: int|
            0 <= x < self.width && 0 <= y < self.height - 1 ==> #[trigger] self.pix(x, y + 1)
                == other.pix(x, y)
    }

    /// `self` fits to the west of `other`: all but the right column of `self`
    /// equals all but the left column of `other`.
    pub open spec fn spec_fits_left(self, other: Image) -> bool {
        forall|x: int, y: int|
            0 <= x < self.width - 1 && 0 <= y < self.height ==> #[trigger] self.pix(x, y)
                == other.pix(x + 1, y)
    }

    /// `self` fits to the east of `other`: all but the left column of `self`
    /// equals all but the right column of `other`.
    pub open spec fn spec_fits_right(self, other: Image) -> bool {
        forall|x: int, y: int|
            0 <= x < self.width - 1 && 0 <= y < self.height ==> #[trigger] self.pix(x + 1, y)
                == other.pix(x, y)
    }

    /// Whether `other` may be placed next to `self` at the given unit offset.
    /// Any offset other than the four cardinal ones counts as incompatible.
    pub open spec fn spec_fits(self, other: Image, offset: (int, int)) -> bool {
        if offset == (0int, -1int) {
            self.spec_fits_top(other)
        } else if offset == (0int, 1int) {
            self.spec_fits_bottom(other)
        } else if offset == (-1int, 0int) {
            self.spec_fits_left(other)
        } else if offset == (1int, 0int) {
            self.spec_fits_right(other)
        } else {
            false
        }
    }

    fn fits_top(&self, other: &Image) -> (r: bool)
        requires
            self.wf(),
            other.wf(),
            self.same_dims(*other),
            self.width >= 1,
            self.height >= 1,
        ensures
            r == self.spec_fits_top(*other),
    {
        let rows = self.height - 1;
        let mut y: usize = 0;
        while y < rows
            invariant
                self.wf(),
                other.wf(),
                self.same_dims(*other),
                self.width >= 1,
                self.height >= 1,
                rows == self.height - 1,
                y <= rows,
                forall|xi: int, yi: int|
                    0 <= xi < self.width && 0 <= yi < y ==> #[trigger] self.pix(xi, yi)
                        == other.pix(xi, yi + 1),
            decreases rows - y,
        {
            let mut x: usize = 0;
            while x < self.width
                invariant
                    self.wf(),
                    other.wf(),
                    self.same_dims(*other),
                    self.width >= 1,
                    self.height >= 1,
                    rows == self.height - 1,
                    y < rows,
                    x <= self.width,
                    forall|xi: int, yi: int|
                        0 <= xi < self.width && 0 <= yi < y ==> #[trigger] self.pix(xi, yi)
                            == other.pix(xi, yi + 1),
                    forall|xi: int|
                        0 <= xi < x ==> #[trigger] self.pix(xi, y as int) == other.pix(
                            xi,
                            y as int + 1,
                        ),
                decreases self.width - x,
            {
                if self.pixel_at(x, y) != other.pixel_at(x, y + 1) {
                    return false;
                }
                x += 1;
            }
            y += 1;
        }
        true
    }

    fn fits_bottom(&self, other: &Image) -> (r: bool)
        requires
            self.wf(),
            other.wf(),
            self.same_dims(*other),
            self.width >= 1,
            self.height >= 1,
        ensures
            r == self.spec_fits_bottom(*other),
    {
        let rows = self.height - 1;
        let mut y: usize = 0;
        while y < rows
            invariant
                self.wf(),
                other.wf(),
                self.same_dims(*other),
                self.width >= 1,
                self.height >= 1,
                rows == self.height - 1,
                y <= rows,
                forall|xi: int, yi: int|
                    0 <= xi < self.width && 0 <= yi < y ==> #[trigger] self.pix(xi, yi + 1)
                        == other.pix(xi, yi),
            decreases rows - y,
        {
            let mut x: usize = 0;
            while x < self.width
                invariant
                    self.wf(),
                    other.wf(),
                    self.same_dims(*other),
                    self.width >= 1,
                    self.height >= 1,
                    rows == self.height - 1,
                    y < rows,
                    x <= self.width,
                    forall|xi: int, yi: int|
                        0 <= xi < self.width && 0 <= yi < y ==> #[trigger] self.pix(xi, yi + 1)
                            == other.pix(xi, yi),
                    forall|xi: int|
                        0 <= xi < x ==> #[trigger] self.pix(xi, y as int + 1) == other.pix(
                            xi,
                            y as int,
                        ),
                decreases self.width - x,
            {
                if self.pixel_at(x, y + 1) != other.pixel_at(x, y) {
                    return false;
                }
                x += 1;
            }
            y += 1;
        }
        true
    }

    fn fits_left(&self, other: &Image) -> (r: bool)
        requires
            self.wf(),
            other.wf(),
            self.same_dims(*other),
            self.width >= 1,
            self.height >= 1,
        ensures
            r == self.spec_fits_left(*other),
    {
        let cols = self.width - 1;
        let mut y: usize = 0;
        while y < self.height
            invariant
                self.wf(),
                other.wf(),
                self.same_dims(*other),
                self.width >= 1,
                self.height >= 1,
                cols == self.width - 1,
                y <= self.height,
                forall|xi: int, yi: int|
                    0 <= xi < cols && 0 <= yi < y ==> #[trigger] self.pix(xi, yi) == other.pix(
                        xi + 1,
                        yi,
                    ),
            decreases self.height - y,
        {
            let mut x: usize = 0;
            while x < cols
                invariant
                    self.wf(),
                    other.wf(),
                    self.same_dims(*other),
                    self.width >= 1,
                    self.height >= 1,
                    cols == self.width - 1,
                    y < self.height,
                    x <= cols,
                    forall|xi: int, yi: int|
                        0 <= xi < cols && 0 <= yi < y ==> #[trigger] self.pix(xi, yi) == other.pix(
                            xi + 1,
                            yi,
                        ),
                    forall|xi: int|
                        0 <= xi < x ==> #[trigger] self.pix(xi, y as int) == other.pix(
                            xi + 1,
                            y as int,
                        ),
                decreases cols - x,
            {
                if self.pixel_at(x, y) != other.pixel_at(x + 1, y) {
                    return false;
                }
                x += 1;
            }
            y += 1;
        }
        true
    }

    fn fits_right(&self, other: &Image) -> (r: bool)
        requires
            self.wf(),
            other.wf(),
            self.same_dims(*other),
            self.width >= 1,
            self.height >= 1,
        ensures
            r == self.spec_fits_right(*other),
    {
        let cols = self.width - 1;
        let mut y: usize = 0;
        while y < self.height
            invariant
                self.wf(),
                other.wf(),
                self.same_dims(*other),
                self.width >= 1,
                self.height >= 1,
                cols == self.width - 1,
                y <= self.height,
                forall|xi: int, yi: int|
                    0 <= xi < cols && 0 <= yi < y ==> #[trigger] self.pix(xi + 1, yi) == other.pix(
                        xi,
                        yi,
                    ),
            decreases self.height - y,
        {
            let mut x: usize = 0;
            while x < cols
                invariant
                    self.wf(),
                    other.wf(),
                    self.same_dims(*other),
                    self.width >= 1,
                    self.height >= 1,
                    cols == self.width - 1,
                    y < self.height,
                    x <= cols,
                    forall|xi: int, yi: int|
                        0 <= xi < cols && 0 <= yi < y ==> #[trigger] self.pix(xi + 1, yi)
                            == other.pix(xi, yi),
                    forall|xi: int|
                        0 <= xi < x ==> #[trigger] self.pix(xi + 1, y as int) == other.pix(
                            xi,
                            y as int,
                        ),
                decreases cols - x,
            {
                if self.pixel_at(x + 1, y) != other.pixel_at(x, y) {
                    return false;
                }
                x += 1;
            }
            y += 1;
        }
        true
    }

    /// Decide whether `other` is a legal neighbor of `self` at the given
    /// offset, by the edge-overlap equality test. An offset that is not one
    /// of the four cardinal unit offsets is reported as incompatible.
    pub fn fits(&self, other: &Image, offset: (i32, i32)) -> (r: bool)
        requires
            self.wf(),
            other.wf(),
            self.same_dims(*other),
            self.width >= 1,
            self.height >= 1,
        ensures
            r == self.spec_fits(*other, (offset.0 as int, offset.1 as int)),
    {
        match offset {
            (0, -1) => self.fits_top(other),
            (0, 1) => self.fits_bottom(other),
            (-1, 0) => self.fits_left(other),
            (1, 0) => self.fits_right(other),
            _ => false,
        }
    }
}

} // verus!
