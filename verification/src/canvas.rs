use vstd::prelude::*;

use crate::fabric::{grid_index, in_grid, lemma_grid_index_bound};

verus! {

/// One pixel's colour: red, green, blue and alpha bytes.
#[derive(Clone, Copy, Debug, PartialEq, Eq)]
pub struct Rgba {
    pub r: u8,
    pub g: u8,
    pub b: u8,
    pub a: u8,
}

impl Rgba {
    /// The colour of a fabric cell drawn with red level `intensity`: green at a
    /// quarter of it, a faint blue, fully opaque.
    pub fn fabric_shade(intensity: u8) -> (c: Rgba)
        ensures
            c == (Rgba { r: intensity, g: (intensity / 4) as u8, b: 20, a: 255 }),
    {
        Rgba { r: intensity, g: intensity / 4, b: 20, a: 255 }
    }

    /// A fully opaque colour.
    pub fn opaque(r: u8, g: u8, b: u8) -> (c: Rgba)
        ensures
            c == (Rgba { r, g, b, a: 255 }),
    {
        Rgba { r, g, b, a: 255 }
    }
}

/// The offset of the first byte of pixel `(x, y)` in a canvas of `w` columns.
pub open spec fn pixel_offset(x: int, y: int, w: int) -> int {
    grid_index(x, y, w) * 4
}

/// `bytes` with the four bytes from `offset` on replaced by the channels of `c`.
pub open spec fn paint(bytes: Seq<u8>, offset: int, c: Rgba) -> Seq<u8> {
    bytes.update(offset, c.r).update(offset + 1, c.g).update(offset + 2, c.b).update(offset + 3, c.a)
}

/// The colour held by the four bytes from `offset` on.
pub open spec fn colour_at(bytes: Seq<u8>, offset: int) -> Rgba {
    Rgba { r: bytes[offset], g: bytes[offset + 1], b: bytes[offset + 2], a: bytes[offset + 3] }
}

/// A pixel buffer of `width` columns and `height` rows, four bytes per pixel
/// (red, green, blue, alpha), stored row by row.
pub struct Canvas {
    width: u32,
    height: u32,
    bytes: Vec<u8>,
}

impl View for Canvas {
    type V = Seq<u8>;

    closed spec fn view(&self) -> Seq<u8> {
        self.bytes@
    }
}

impl Canvas {
    /// The number of columns.
    pub closed spec fn cols(&self) -> nat {
        self.width as nat
    }

    /// The number of rows.
    pub closed spec fn rows(&self) -> nat {
        self.height as nat
    }

    /// The canvas holds four bytes per pixel, and its byte count fits a `u32`.
    pub closed spec fn wf(&self) -> bool {
        &&& self.bytes@.len() == self.width * self.height * 4
        &&& self.width * self.height * 4 <= u32::MAX
    }

    /// A well-formed canvas holds four bytes per pixel, no more than a `u32` counts.
    pub proof fn lemma_shape(&self)
        requires
            self.wf(),
        ensures
            self@.len() == self.cols() * self.rows() * 4,
            self.cols() * self.rows() * 4 <= u32::MAX,
    {
    }

    /// A black, fully transparent canvas of `width` columns and `height` rows.
    pub fn new(width: u32, height: u32) -> (c: Canvas)
        requires
            width * height * 4 <= u32::MAX,
        ensures
            c.wf(),
            c.cols() == width,
            c.rows() == height,
            c@ == Seq::new((width * height * 4) as nat, |i: int| 0u8),
    {
        let count: u32 = width * height * 4;
        let mut bytes: Vec<u8> = Vec::new();
        let mut i: u32 = 0;
        while i < count
            invariant
                i <= count,
                bytes@ == Seq::new(i as nat, |k: int| 0u8),
            decreases count - i,
        {
            bytes.push(0);
            i = i + 1;
        }
        Canvas { width, height, bytes }
    }

    /// The number of columns.
    pub fn width(&self) -> (r: u32)
        ensures
            r == self.cols(),
    {
        self.width
    }

    /// The number of rows.
    pub fn height(&self) -> (r: u32)
        ensures
            r == self.rows(),
    {
        self.height
    }

    /// The bytes of the canvas, row by row.
    pub fn as_bytes(&self) -> (r: &[u8])
        ensures
            r@ == self@,
    {
        self.bytes.as_slice()
    }

    /// Sets every byte to zero.
    pub fn clear(&mut self)
        requires
            old(self).wf(),
        ensures
            final(self).wf(),
            final(self).cols() == old(self).cols(),
            final(self).rows() == old(self).rows(),
            final(self)@ == Seq::new(old(self)@.len(), |i: int| 0u8),
    {
        let n = self.bytes.len();
        let mut i: usize = 0;
        while i < n
            invariant
                i <= n,
                n == self.bytes@.len(),
                self.wf(),
                self.cols() == old(self).cols(),
                self.rows() == old(self).rows(),
                forall|k: int| 0 <= k < i ==> self.bytes@[k] == 0u8,
            decreases n - i,
        {
            self.bytes.set(i, 0);
            i = i + 1;
        }
        assert(self@ =~= Seq::new(old(self)@.len(), |i: int| 0u8));
    }

    /// The colour of pixel `(x, y)`.
    pub fn pixel(&self, x: u32, y: u32) -> (c: Rgba)
        requires
            self.wf(),
            x < self.cols(),
            y < self.rows(),
        ensures
            c == colour_at(self@, pixel_offset(x as int, y as int, self.cols() as int)),
            c.r == self@[(y * self.cols() + x) * 4],
            c.g == self@[(y * self.cols() + x) * 4 + 1],
            c.b == self@[(y * self.cols() + x) * 4 + 2],
            c.a == self@[(y * self.cols() + x) * 4 + 3],
    {
        let o = self.offset(x, y);
        Rgba { r: self.bytes[o], g: self.bytes[o + 1], b: self.bytes[o + 2], a: self.bytes[o + 3] }
    }

    fn offset(&self, x: u32, y: u32) -> (o: usize)
        requires
            self.wf(),
            x < self.cols(),
            y < self.rows(),
        ensures
            o == pixel_offset(x as int, y as int, self.cols() as int),
            o + 4 <= self@.len(),
    {
        proof {
            lemma_grid_index_bound(x as int, y as int, self.width as int, self.height as int);
            assert((self.width * self.height) * 4 == self.width * self.height * 4) by (nonlinear_arith);
        }
        let at: u32 = y * self.width + x;
        (at * 4) as usize
    }

    /// Paints pixel `(x, y)` with colour `c`; every other byte keeps its value.
    pub fn put_pixel(&mut self, x: u32, y: u32, c: Rgba)
        requires
            old(self).wf(),
            x < old(self).cols(),
            y < old(self).rows(),
        ensures
            final(self).wf(),
            final(self).cols() == old(self).cols(),
            final(self).rows() == old(self).rows(),
            final(self)@ == paint(old(self)@, pixel_offset(x as int, y as int, old(self).cols() as int), c),
            final(self)@.len() == old(self)@.len(),
            final(self)@[(y * old(self).cols() + x) * 4] == c.r,
            final(self)@[(y * old(self).cols() + x) * 4 + 1] == c.g,
            final(self)@[(y * old(self).cols() + x) * 4 + 2] == c.b,
            final(self)@[(y * old(self).cols() + x) * 4 + 3] == c.a,
            forall|k: int|
                0 <= k < old(self)@.len() && !((y * old(self).cols() + x) * 4 <= k < (y * old(
                    self,
                ).cols() + x) * 4 + 4) ==> #[trigger] final(self)@[k] == old(self)@[k],
    {
        proof {
            law_paint_row_major(
                self@,
                self.cols() as int,
                self.rows() as int,
                x as int,
                y as int,
                c,
            );
        }
        let o = self.offset(x, y);
        self.bytes.set(o, c.r);
        self.bytes.set(o + 1, c.g);
        self.bytes.set(o + 2, c.b);
        self.bytes.set(o + 3, c.a);
    }

    /// Paints pixel `(x, y)` with colour `c` where that pixel lies on the
    /// canvas, and tells whether it did; off the canvas nothing changes.
    pub fn put_pixel_at(&mut self, x: i32, y: i32, c: Rgba) -> (drawn: bool)
        requires
            old(self).wf(),
        ensures
            final(self).wf(),
            final(self).cols() == old(self).cols(),
            final(self).rows() == old(self).rows(),
            drawn == in_grid(x as int, y as int, old(self).cols() as int, old(self).rows() as int),
            drawn == (0 <= x < old(self).cols() && 0 <= y < old(self).rows()),
            drawn ==> final(self)@ == paint(
                old(self)@,
                pixel_offset(x as int, y as int, old(self).cols() as int),
                c,
            ),
            !drawn ==> final(self)@ == old(self)@,
            drawn ==> {
                &&& final(self)@.len() == old(self)@.len()
                &&& final(self)@[(y * old(self).cols() + x) * 4] == c.r
                &&& final(self)@[(y * old(self).cols() + x) * 4 + 1] == c.g
                &&& final(self)@[(y * old(self).cols() + x) * 4 + 2] == c.b
                &&& final(self)@[(y * old(self).cols() + x) * 4 + 3] == c.a
                &&& forall|k: int|
                    0 <= k < old(self)@.len() && !((y * old(self).cols() + x) * 4 <= k < (y * old(
                        self,
                    ).cols() + x) * 4 + 4) ==> #[trigger] final(self)@[k] == old(self)@[k]
            },
    {
        if x >= 0 && y >= 0 && (x as u32) < self.width && (y as u32) < self.height {
            self.put_pixel(x as u32, y as u32, c);
            true
        } else {
            false
        }
    }
}

/// Reading a pixel back gives what was painted there, and painting one pixel
/// leaves every other pixel of the canvas as it was.
pub proof fn law_paint_then_read(
    bytes: Seq<u8>,
    w: int,
    h: int,
    x: int,
    y: int,
    c: Rgba,
    qx: int,
    qy: int,
)
    requires
        bytes.len() == w * h * 4,
        in_grid(x, y, w, h),
        in_grid(qx, qy, w, h),
    ensures
        colour_at(paint(bytes, pixel_offset(x, y, w), c), pixel_offset(qx, qy, w)) == (if x == qx
            && y == qy {
            c
        } else {
            colour_at(bytes, pixel_offset(qx, qy, w))
        }),
{
    lemma_grid_index_bound(x, y, w, h);
    lemma_grid_index_bound(qx, qy, w, h);
    assert(w * h * 4 == (w * h) * 4) by (nonlinear_arith);
    if !(x == qx && y == qy) {
        if grid_index(x, y, w) == grid_index(qx, qy, w) {
            crate::fabric::lemma_grid_index_injective(x, y, qx, qy, w, h);
        }
    }
}

/// Painting pixel `(x, y)` of a row-major canvas of width `w` writes its red,
/// green, blue and alpha to bytes `(y * w + x) * 4` to `(y * w + x) * 4 + 3`,
/// which lie inside the canvas, and leaves every other byte as it was.
pub proof fn law_paint_row_major(bytes: Seq<u8>, w: int, h: int, x: int, y: int, c: Rgba)
    requires
        bytes.len() == w * h * 4,
        0 <= x < w,
        0 <= y < h,
    ensures
        ({
            let out = paint(bytes, pixel_offset(x, y, w), c);
            let o = (y * w + x) * 4;
            &&& 0 <= o
            &&& o + 4 <= bytes.len()
            &&& out.len() == bytes.len()
            &&& out[o] == c.r
            &&& out[o + 1] == c.g
            &&& out[o + 2] == c.b
            &&& out[o + 3] == c.a
            &&& forall|k: int|
                0 <= k < bytes.len() && !(o <= k < o + 4) ==> #[trigger] out[k] == bytes[k]
        }),
{
    lemma_grid_index_bound(x, y, w, h);
    assert(w * h * 4 == (w * h) * 4) by (nonlinear_arith);
}

/// Reading pixel `(x, y)` of a row-major canvas of width `w` takes its red,
/// green, blue and alpha from bytes `(y * w + x) * 4` to `(y * w + x) * 4 + 3`.
pub proof fn law_read_row_major(bytes: Seq<u8>, w: int, x: int, y: int)
    ensures
        colour_at(bytes, pixel_offset(x, y, w)) == (Rgba {
            r: bytes[(y * w + x) * 4],
            g: bytes[(y * w + x) * 4 + 1],
            b: bytes[(y * w + x) * 4 + 2],
            a: bytes[(y * w + x) * 4 + 3],
        }),
{
}

} // verus!
