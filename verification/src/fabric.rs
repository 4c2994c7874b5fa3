use vstd::prelude::*;

use crate::influence::{
    block_splats, column_splats, influence_splats, law_influence_complete, law_influence_no_repeat,
    law_influence_scan_order, law_influence_sound, splat_at, Splat,
};

verus! {

/// Whether the cell `(x, y)` lies on a grid of `w` columns and `h` rows.
pub open spec fn in_grid(x: int, y: int, w: int, h: int) -> bool {
    0 <= x < w && 0 <= y < h
}

/// The position of cell `(x, y)` in the row-by-row storage of a grid of `w` columns.
pub open spec fn grid_index(x: int, y: int, w: int) -> int {
    y * w + x
}

/// The cells of a grid lie in its storage: a cell on the grid has an index
/// below `w * h`.
pub proof fn lemma_grid_index_bound(x: int, y: int, w: int, h: int)
    requires
        in_grid(x, y, w, h),
    ensures
        0 <= grid_index(x, y, w) < w * h,
        y + 1 < h ==> grid_index(x, y, w) + w < w * h,
        y >= 1 ==> grid_index(x, y, w) >= w,
{
    assert(0 <= y * w) by (nonlinear_arith)
        requires
            0 <= y,
            0 <= x < w,
    ;
    assert(y * w + w == (y + 1) * w) by (nonlinear_arith);
    assert(y + 1 < h ==> (y + 2) * w <= h * w) by (nonlinear_arith)
        requires
            0 < w,
    ;
    assert(y >= 1 ==> y * w >= w) by (nonlinear_arith)
        requires
            0 < w,
    ;
    assert((y + 1) * w + w == (y + 2) * w) by (nonlinear_arith);
    assert(w * h == h * w) by (nonlinear_arith);
}

/// Two cells on a grid that share a storage index are the same cell.
pub proof fn lemma_grid_index_injective(x1: int, y1: int, x2: int, y2: int, w: int, h: int)
    requires
        in_grid(x1, y1, w, h),
        in_grid(x2, y2, w, h),
        grid_index(x1, y1, w) == grid_index(x2, y2, w),
    ensures
        x1 == x2,
        y1 == y2,
{
    vstd::arithmetic::div_mod::lemma_fundamental_div_mod_converse(grid_index(x1, y1, w), w, y1, x1);
    vstd::arithmetic::div_mod::lemma_fundamental_div_mod_converse(grid_index(x2, y2, w), w, y2, x2);
}

/// Reading a cell back gives what was last stored there, and storing into one
/// cell leaves every other cell as it was: the views that `Fabric::set` and
/// `Fabric::get` speak of.
pub proof fn law_set_then_get<T>(cells: Seq<T>, index: int, value: T, other: int)
    requires
        0 <= index < cells.len(),
        0 <= other < cells.len(),
    ensures
        cells.update(index, value)[other] == (if other == index {
            value
        } else {
            cells[other]
        }),
        cells.update(index, value).len() == cells.len(),
{
}

/// The four cells around an inner cell of the fabric, by their storage index.
#[derive(Clone, Copy, Debug, PartialEq, Eq)]
pub struct Neighbors {
    pub left: usize,
    pub right: usize,
    pub top: usize,
    pub bottom: usize,
}

/// A grid of `width` columns and `height` rows, stored row by row.
pub struct Fabric<T> {
    width: u32,
    height: u32,
    cells: Vec<T>,
}

impl<T> View for Fabric<T> {
    type V = Seq<T>;

    closed spec fn view(&self) -> Seq<T> {
        self.cells@
    }
}

impl<T> Fabric<T> {
    /// The number of columns.
    pub closed spec fn cols(&self) -> nat {
        self.width as nat
    }

    /// The number of rows.
    pub closed spec fn rows(&self) -> nat {
        self.height as nat
    }

    /// The fabric holds one cell per grid position, and its cell count fits a `u32`.
    pub closed spec fn wf(&self) -> bool {
        &&& self.cells@.len() == self.width * self.height
        &&& self.width * self.height <= u32::MAX
    }

    /// A fabric holds one cell per grid position, and no more cells than a `u32` counts.
    pub proof fn lemma_shape(&self)
        requires
            self.wf(),
        ensures
            self@.len() == self.cols() * self.rows(),
            self.cols() * self.rows() <= u32::MAX,
            self.cols() <= u32::MAX,
            self.rows() <= u32::MAX,
    {
    }

    /// The number of columns.
    pub fn width(&self) -> (r: u32)
        ensures
            r == self.cols(),
    {
        self.width
    }

    /// The number of rows.
    pub fn height(&self) -> (r: u32)
        ensures
            r == self.rows(),
    {
        self.height
    }

    /// The number of cells.
    pub fn len(&self) -> (r: usize)
        requires
            self.wf(),
        ensures
            r == self@.len(),
            r == self.cols() * self.rows(),
    {
        self.cells.len()
    }

    /// The cell stored at `index`.
    pub fn get(&self, index: usize) -> (r: T) where T: Copy
        requires
            index < self@.len(),
        ensures
            r == self@[index as int],
    {
        self.cells[index]
    }

    /// Stores `value` at `index`; every other cell keeps its value.
    pub fn set(&mut self, index: usize, value: T)
        requires
            index < old(self)@.len(),
        ensures
            final(self).wf() == old(self).wf(),
            final(self)@ == old(self)@.update(index as int, value),
            final(self).cols() == old(self).cols(),
            final(self).rows() == old(self).rows(),
    {
        self.cells.set(index, value);
    }
}


impl<T: Copy> Fabric<T> {
    /// A fabric of `width` columns and `height` rows whose every cell holds `value`.
    pub fn new(width: u32, height: u32, value: T) -> (r: Self)
        requires
            width * height <= u32::MAX,
        ensures
            r.wf(),
            r.cols() == width,
            r.rows() == height,
            r@ == Seq::new((width * height) as nat, |i: int| value),
    {
        let count: u32 = width * height;
        let mut cells: Vec<T> = Vec::new();
        let mut i: u32 = 0;
        while i < count
            invariant
                i <= count,
                cells@ == Seq::new(i as nat, |k: int| value),
            decreases count - i,
        {
            cells.push(value);
            i = i + 1;
        }
        Fabric { width, height, cells }
    }

    /// Gives every cell the value `value`.
    pub fn fill(&mut self, value: T)
        requires
            old(self).wf(),
        ensures
            final(self).wf(),
            final(self).cols() == old(self).cols(),
            final(self).rows() == old(self).rows(),
            final(self)@ == Seq::new(old(self)@.len(), |i: int| value),
    {
        let n = self.cells.len();
        let mut i: usize = 0;
        while i < n
            invariant
                i <= n,
                n == self.cells@.len(),
                self.wf(),
                self.cols() == old(self).cols(),
                self.rows() == old(self).rows(),
                forall|k: int| 0 <= k < i ==> self.cells@[k] == value,
            decreases n - i,
        {
            self.cells.set(i, value);
            i = i + 1;
        }
        assert(self@ =~= Seq::new(old(self)@.len(), |i: int| value));
    }
}

impl<T> Fabric<T> {
    /// The storage index of cell `(x, y)`, or `None` where that cell is off the grid.
    pub fn cell_index(&self, x: i32, y: i32) -> (r: Option<usize>)
        requires
            self.wf(),
        ensures
            r == (if in_grid(x as int, y as int, self.cols() as int, self.rows() as int) {
                Some(grid_index(x as int, y as int, self.cols() as int) as usize)
            } else {
                None
            }),
            r == (if 0 <= x < self.cols() && 0 <= y < self.rows() {
                Some((y * self.cols() + x) as usize)
            } else {
                None
            }),
    {
        if x < 0 || y < 0 || (x as u32) >= self.width || (y as u32) >= self.height {
            return None;
        }
        proof {
            lemma_grid_index_bound(x as int, y as int, self.width as int, self.height as int);
        }
        Some((y as usize) * (self.width as usize) + (x as usize))
    }

    /// The storage indices of the cells left of, right of, above and below the
    /// inner cell `(x, y)`.
    pub fn neighbors(&self, x: usize, y: usize) -> (r: Neighbors)
        requires
            self.wf(),
            1 <= x,
            x + 1 < self.cols(),
            1 <= y,
            y + 1 < self.rows(),
        ensures
            r.left == grid_index(x - 1, y as int, self.cols() as int),
            r.right == grid_index(x + 1, y as int, self.cols() as int),
            r.top == grid_index(x as int, y - 1, self.cols() as int),
            r.bottom == grid_index(x as int, y + 1, self.cols() as int),
            r.left == y * self.cols() + x - 1,
            r.right == y * self.cols() + x + 1,
            r.top == (y - 1) * self.cols() + x,
            r.bottom == (y + 1) * self.cols() + x,
            r.left < self@.len(),
            r.right < self@.len(),
            r.top < self@.len(),
            r.bottom < self@.len(),
    {
        proof {
            lemma_grid_index_bound(x as int, y as int, self.width as int, self.height as int);
            assert((y - 1) * self.width == y * self.width - self.width) by (nonlinear_arith);
            assert((y + 1) * self.width == y * self.width + self.width) by (nonlinear_arith);
        }
        let w = self.width as usize;
        let here = y * w + x;
        Neighbors { left: here - 1, right: here + 1, top: here - w, bottom: here + w }
    }
}


impl<T> Fabric<T> {
    /// The cells that a body in cell `(px, py)` bends with influence radius
    /// `radius`: every grid cell whose offset `(ox, oy)` from the body, with
    /// `-radius <= ox, oy <= radius`, has `ox * ox + oy * oy <= radius * radius`,
    /// scanned column by column, with its squared distance.
    pub fn influence(&self, px: i32, py: i32, radius: i32) -> (r: Vec<Splat>)
        requires
            self.wf(),
            self.cols() <= i32::MAX,
            self.rows() <= i32::MAX,
            self.cols() * self.rows() <= i32::MAX + 1,
            0 <= radius,
            2 * radius * radius <= i32::MAX,
            i32::MIN <= px - radius,
            px + radius <= i32::MAX,
            i32::MIN <= py - radius,
            py + radius <= i32::MAX,
        ensures
            r@ == influence_splats(
                px as int,
                py as int,
                radius as int,
                self.cols() as int,
                self.rows() as int,
            ),
            forall|ox: int, oy: int|
                0 <= px + ox < self.cols() && 0 <= py + oy < self.rows() && ox * ox + oy * oy
                    <= radius * radius ==> #[trigger] r@.contains(
                    Splat {
                        index: ((py + oy) * self.cols() + (px + ox)) as usize,
                        dist_sq: (ox * ox + oy * oy) as u32,
                    },
                ),
            forall|k: int|
                0 <= k < r@.len() ==> {
                    let x = #[trigger] r@[k].index as int % self.cols() as int;
                    let y = r@[k].index as int / self.cols() as int;
                    &&& 0 <= r@[k].index < self.cols() * self.rows()
                    &&& 0 <= x < self.cols()
                    &&& 0 <= y < self.rows()
                    &&& (x - px) * (x - px) + (y - py) * (y - py) <= radius * radius
                    &&& r@[k].dist_sq == (x - px) * (x - px) + (y - py) * (y - py)
                },
            forall|i: int, j: int|
                0 <= i < r@.len() && 0 <= j < r@.len() && i != j ==> #[trigger] r@[i].index
                    != #[trigger] r@[j].index,
            forall|i: int, j: int|
                0 <= i < j < r@.len() ==> ({
                    let a = #[trigger] r@[i].index as int;
                    let b = #[trigger] r@[j].index as int;
                    let c = self.cols() as int;
                    a % c < b % c || (a % c == b % c && a / c < b / c)
                }),
    {
        let ghost w = self.cols() as int;
        let ghost h = self.rows() as int;
        let ghost r = radius as int;
        proof {
            assert(radius * radius <= i32::MAX / 2 && radius <= 32767) by (nonlinear_arith)
                requires
                    0 <= radius,
                    2 * radius * radius <= i32::MAX,
            ;
        }
        let width = self.width as i32;
        let height = self.height as i32;
        let span: i32 = 2 * radius + 1;
        let mut res: Vec<Splat> = Vec::new();
        let mut i: i32 = 0;
        while i < span
            invariant
                0 <= i <= span,
                span == 2 * radius + 1,
                0 <= radius,
                radius * radius <= i32::MAX / 2,
                i32::MIN <= px - radius,
                px + radius <= i32::MAX,
                i32::MIN <= py - radius,
                py + radius <= i32::MAX,
                width == w,
                height == h,
                w <= i32::MAX,
                h <= i32::MAX,
                w * h <= i32::MAX + 1,
                r == radius,
                res@ == block_splats(px as int, py as int, r, w, h, i as nat),
            decreases span - i,
        {
            let ox: i32 = i - radius;
            let ghost before = res@;
            let mut j: i32 = 0;
            while j < span
                invariant
                    0 <= i < span,
                    0 <= j <= span,
                    span == 2 * radius + 1,
                    ox == i - radius,
                    0 <= radius,
                    radius * radius <= i32::MAX / 2,
                    i32::MIN <= px - radius,
                    px + radius <= i32::MAX,
                    i32::MIN <= py - radius,
                    py + radius <= i32::MAX,
                    width == w,
                    height == h,
                    w <= i32::MAX,
                    h <= i32::MAX,
                    w * h <= i32::MAX + 1,
                    r == radius,
                    res@ == before + column_splats(px as int, py as int, ox as int, r, w, h, j as nat),
                decreases span - j,
            {
                let oy: i32 = j - radius;
                let x: i32 = px + ox;
                let y: i32 = py + oy;
                let ghost col = column_splats(px as int, py as int, ox as int, r, w, h, j as nat);
                if !(x >= width || y >= height || x < 0 || y < 0) {
                    proof {
                        assert(ox * ox <= radius * radius) by (nonlinear_arith)
                            requires -radius <= ox <= radius;
                        assert(oy * oy <= radius * radius) by (nonlinear_arith)
                            requires -radius <= oy <= radius;
                        assert(0 <= ox * ox) by (nonlinear_arith);
                        assert(0 <= oy * oy) by (nonlinear_arith);
                    }
                    let dist_sq: i32 = ox * ox + oy * oy;
                    if dist_sq <= radius * radius {
                        proof {
                            lemma_grid_index_bound(x as int, y as int, w, h);
                            assert(y * width <= y * width + x);
                        }
                        let index: i32 = y * width + x;
                        let splat = Splat { index: index as usize, dist_sq: dist_sq as u32 };
                        res.push(splat);
                        proof {
                            assert(splat == splat_at(px as int, py as int, ox as int, oy as int, w));
                            assert(res@ =~= before + col.push(splat));
                        }
                    }
                }
                j = j + 1;
            }
            proof {
                assert(res@ == block_splats(px as int, py as int, r, w, h, (i + 1) as nat));
            }
            i = i + 1;
        }
        proof {
            let ghost all = influence_splats(px as int, py as int, r, w, h);
            assert(res@ == all);
            assert forall|ox: int, oy: int|
                0 <= px + ox < w && 0 <= py + oy < h && ox * ox + oy * oy <= radius
                    * radius implies #[trigger] res@.contains(
                Splat { index: ((py + oy) * w + (px + ox)) as usize, dist_sq: (ox * ox + oy * oy) as u32 },
            ) by {
                law_influence_complete(px as int, py as int, r, w, h, ox, oy);
            }
            assert forall|k: int| 0 <= k < res@.len() implies {
                let x = #[trigger] res@[k].index as int % w;
                let y = res@[k].index as int / w;
                &&& 0 <= res@[k].index < w * h
                &&& 0 <= x < w
                &&& 0 <= y < h
                &&& (x - px) * (x - px) + (y - py) * (y - py) <= radius * radius
                &&& res@[k].dist_sq == (x - px) * (x - px) + (y - py) * (y - py)
            } by {
                law_influence_sound(px as int, py as int, r, w, h, k);
            }
            assert forall|i: int, j: int|
                0 <= i < res@.len() && 0 <= j < res@.len() && i != j implies #[trigger] res@[i].index
                != #[trigger] res@[j].index by {
                law_influence_no_repeat(px as int, py as int, r, w, h, i, j);
            }
            assert forall|i: int, j: int| 0 <= i < j < res@.len() implies ({
                let a = #[trigger] res@[i].index as int;
                let b = #[trigger] res@[j].index as int;
                a % w < b % w || (a % w == b % w && a / w < b / w)
            }) by {
                law_influence_scan_order(px as int, py as int, r, w, h, i, j);
            }
        }
        res
    }
}

} // verus!
