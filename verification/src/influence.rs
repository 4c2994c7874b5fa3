use vstd::prelude::*;

use crate::fabric::{grid_index, in_grid, lemma_grid_index_bound, lemma_grid_index_injective};

verus! {

/// How far, in cells along each axis, a body bends the fabric around it.
pub const INFLUENCE_RADIUS: i32 = 100;

/// A cell that a body reaches, with the squared distance from the body's cell.
#[derive(Clone, Copy, Debug, PartialEq, Eq)]
pub struct Splat {
    pub index: usize,
    pub dist_sq: u32,
}

/// Whether a body in cell `(px, py)` reaches the cell at offset `(ox, oy)` from it
/// with influence radius `r`: that cell lies on the grid and within the circle.
pub open spec fn reaches(px: int, py: int, ox: int, oy: int, r: int, w: int, h: int) -> bool {
    &&& in_grid(px + ox, py + oy, w, h)
    &&& ox * ox + oy * oy <= r * r
}

/// The record of the cell at offset `(ox, oy)` from cell `(px, py)`.
pub open spec fn splat_at(px: int, py: int, ox: int, oy: int, w: int) -> Splat {
    Splat { index: grid_index(px + ox, py + oy, w) as usize, dist_sq: (ox * ox + oy * oy) as u32 }
}

/// The cells reached in the column of offset `ox`, for the row offsets
/// `-r, -r + 1, .., -r + n - 1`, in that order.
pub open spec fn column_splats(px: int, py: int, ox: int, r: int, w: int, h: int, n: nat) -> Seq<
    Splat,
>
    decreases n,
{
    if n == 0 {
        Seq::empty()
    } else {
        let before = column_splats(px, py, ox, r, w, h, (n - 1) as nat);
        let oy = -r + n - 1;
        if reaches(px, py, ox, oy, r, w, h) {
            before.push(splat_at(px, py, ox, oy, w))
        } else {
            before
        }
    }
}

/// The cells reached in the columns of offset `-r, -r + 1, .., -r + m - 1`,
/// column after column, each column from its lowest row offset up.
pub open spec fn block_splats(px: int, py: int, r: int, w: int, h: int, m: nat) -> Seq<Splat>
    decreases m,
{
    if m == 0 {
        Seq::empty()
    } else {
        block_splats(px, py, r, w, h, (m - 1) as nat) + column_splats(
            px,
            py,
            -r + m - 1,
            r,
            w,
            h,
            (2 * r + 1) as nat,
        )
    }
}

/// Every cell that a body in cell `(px, py)` reaches with radius `r`, in the
/// order of the square scan: column offset from `-r` to `r`, and within a
/// column row offset from `-r` to `r`.
pub open spec fn influence_splats(px: int, py: int, r: int, w: int, h: int) -> Seq<Splat> {
    block_splats(px, py, r, w, h, (2 * r + 1) as nat)
}

/// Two reached offsets whose records name the same cell are the same offset.
proof fn lemma_splat_injective(
    px: int,
    py: int,
    ox1: int,
    oy1: int,
    ox2: int,
    oy2: int,
    r: int,
    w: int,
    h: int,
)
    requires
        w * h <= u32::MAX,
        reaches(px, py, ox1, oy1, r, w, h),
        reaches(px, py, ox2, oy2, r, w, h),
        splat_at(px, py, ox1, oy1, w).index == splat_at(px, py, ox2, oy2, w).index,
    ensures
        ox1 == ox2,
        oy1 == oy2,
{
    lemma_grid_index_bound(px + ox1, py + oy1, w, h);
    lemma_grid_index_bound(px + ox2, py + oy2, w, h);
    lemma_grid_index_injective(px + ox1, py + oy1, px + ox2, py + oy2, w, h);
}

/// The records of one column are exactly those of its reached row offsets below `-r + n`.
proof fn lemma_column_members(px: int, py: int, ox: int, r: int, w: int, h: int, n: nat)
    ensures
        forall|s: Splat|
            #[trigger] column_splats(px, py, ox, r, w, h, n).contains(s) ==> exists|oy: int|
                -r <= oy < -r + n && reaches(px, py, ox, oy, r, w, h) && s == #[trigger] splat_at(
                    px,
                    py,
                    ox,
                    oy,
                    w,
                ),
        forall|oy: int|
            -r <= oy < -r + n && reaches(px, py, ox, oy, r, w, h) ==> column_splats(
                px,
                py,
                ox,
                r,
                w,
                h,
                n,
            ).contains(#[trigger] splat_at(px, py, ox, oy, w)),
    decreases n,
{
    broadcast use vstd::seq_lib::lemma_seq_contains_after_push;
    broadcast use vstd::seq_lib::lemma_seq_empty_contains_nothing;

    if n > 0 {
        lemma_column_members(px, py, ox, r, w, h, (n - 1) as nat);
        let oy0 = -r + n - 1;
        let before = column_splats(px, py, ox, r, w, h, (n - 1) as nat);
        assert forall|s: Splat| #[trigger]
            column_splats(px, py, ox, r, w, h, n).contains(s) implies exists|oy: int|
            -r <= oy < -r + n && reaches(px, py, ox, oy, r, w, h) && s == #[trigger] splat_at(
                px,
                py,
                ox,
                oy,
                w,
            ) by {
            if reaches(px, py, ox, oy0, r, w, h) && s == splat_at(px, py, ox, oy0, w) {
            } else {
                assert(before.contains(s));
            }
        }
    }
}

/// The records of the first `m` columns are exactly those of the reached
/// offsets with column offset below `-r + m`.
proof fn lemma_block_members(px: int, py: int, r: int, w: int, h: int, m: nat)
    requires
        0 <= r,
    ensures
        forall|s: Splat|
            #[trigger] block_splats(px, py, r, w, h, m).contains(s) ==> exists|ox: int, oy: int|
                -r <= ox < -r + m && -r <= oy <= r && reaches(px, py, ox, oy, r, w, h) && s
                    == #[trigger] splat_at(px, py, ox, oy, w),
        forall|ox: int, oy: int|
            -r <= ox < -r + m && -r <= oy <= r && reaches(px, py, ox, oy, r, w, h)
                ==> block_splats(px, py, r, w, h, m).contains(#[trigger] splat_at(px, py, ox, oy, w)),
    decreases m,
{
    broadcast use vstd::seq_lib::lemma_seq_concat_contains_all_elements;
    broadcast use vstd::seq_lib::lemma_seq_empty_contains_nothing;

    if m > 0 {
        lemma_block_members(px, py, r, w, h, (m - 1) as nat);
        let ox0 = -r + m - 1;
        let n = (2 * r + 1) as nat;
        lemma_column_members(px, py, ox0, r, w, h, n);
        let before = block_splats(px, py, r, w, h, (m - 1) as nat);
        let col = column_splats(px, py, ox0, r, w, h, n);
        assert(block_splats(px, py, r, w, h, m) == before + col);
        assert forall|s: Splat| #[trigger]
            block_splats(px, py, r, w, h, m).contains(s) implies exists|ox: int, oy: int|
            -r <= ox < -r + m && -r <= oy <= r && reaches(px, py, ox, oy, r, w, h) && s
                == #[trigger] splat_at(px, py, ox, oy, w) by {
            if col.contains(s) {
                let oy = choose|oy: int|
                    -r <= oy < -r + n && reaches(px, py, ox0, oy, r, w, h) && s == #[trigger] splat_at(
                        px,
                        py,
                        ox0,
                        oy,
                        w,
                    );
                assert(s == splat_at(px, py, ox0, oy, w));
            } else {
                assert(before.contains(s));
            }
        }
        assert forall|ox: int, oy: int|
            -r <= ox < -r + m && -r <= oy <= r && reaches(
                px,
                py,
                ox,
                oy,
                r,
                w,
                h,
            ) implies block_splats(px, py, r, w, h, m).contains(
            #[trigger] splat_at(px, py, ox, oy, w),
        ) by {
            if ox == ox0 {
                assert(col.contains(splat_at(px, py, ox, oy, w)));
            } else {
                assert(before.contains(splat_at(px, py, ox, oy, w)));
            }
        }
    }
}

/// No two records of a sequence name the same cell.
pub open spec fn distinct_cells(s: Seq<Splat>) -> bool {
    forall|i: int, j: int| 0 <= i < j < s.len() ==> s[i].index != s[j].index
}

proof fn lemma_column_distinct(px: int, py: int, ox: int, r: int, w: int, h: int, n: nat)
    requires
        w * h <= u32::MAX,
    ensures
        distinct_cells(column_splats(px, py, ox, r, w, h, n)),
    decreases n,
{
    if n > 0 {
        lemma_column_distinct(px, py, ox, r, w, h, (n - 1) as nat);
        let oy0 = -r + n - 1;
        let before = column_splats(px, py, ox, r, w, h, (n - 1) as nat);
        if reaches(px, py, ox, oy0, r, w, h) {
            let last = splat_at(px, py, ox, oy0, w);
            lemma_column_members(px, py, ox, r, w, h, (n - 1) as nat);
            assert forall|i: int| 0 <= i < before.len() implies before[i].index != last.index by {
                assert(before.contains(before[i]));
                let oy = choose|oy: int|
                    -r <= oy < -r + (n - 1) && reaches(px, py, ox, oy, r, w, h) && before[i]
                        == #[trigger] splat_at(px, py, ox, oy, w);
                if before[i].index == last.index {
                    lemma_splat_injective(px, py, ox, oy, ox, oy0, r, w, h);
                }
            }
            let all = before.push(last);
            assert forall|i: int, j: int| 0 <= i < j < all.len() implies all[i].index
                != all[j].index by {
                if j == before.len() {
                    assert(all[i] == before[i]);
                } else {
                    assert(all[i] == before[i]);
                    assert(all[j] == before[j]);
                }
            }
        }
    }
}

proof fn lemma_block_distinct(px: int, py: int, r: int, w: int, h: int, m: nat)
    requires
        0 <= r,
        w * h <= u32::MAX,
    ensures
        distinct_cells(block_splats(px, py, r, w, h, m)),
    decreases m,
{
    if m > 0 {
        lemma_block_distinct(px, py, r, w, h, (m - 1) as nat);
        let ox0 = -r + m - 1;
        let n = (2 * r + 1) as nat;
        lemma_block_members(px, py, r, w, h, (m - 1) as nat);
        lemma_column_members(px, py, ox0, r, w, h, n);
        lemma_column_distinct(px, py, ox0, r, w, h, n);
        let before = block_splats(px, py, r, w, h, (m - 1) as nat);
        let col = column_splats(px, py, ox0, r, w, h, n);
        let all = before + col;
        assert(block_splats(px, py, r, w, h, m) == all);
        assert forall|i: int, j: int| 0 <= i < j < all.len() implies all[i].index
            != all[j].index by {
            if j < before.len() {
                assert(all[i] == before[i]);
                assert(all[j] == before[j]);
            } else if i >= before.len() {
                assert(all[i] == col[i - before.len()]);
                assert(all[j] == col[j - before.len()]);
            } else {
                let a = before[i];
                let b = col[j - before.len()];
                assert(all[i] == a);
                assert(all[j] == b);
                assert(before.contains(a));
                assert(col.contains(b));
                let (oxa, oya) = choose|ox: int, oy: int|
                    -r <= ox < -r + (m - 1) && -r <= oy <= r && reaches(px, py, ox, oy, r, w, h) && a
                        == #[trigger] splat_at(px, py, ox, oy, w);
                let oyb = choose|oy: int|
                    -r <= oy < -r + n && reaches(px, py, ox0, oy, r, w, h) && b == #[trigger] splat_at(
                        px,
                        py,
                        ox0,
                        oy,
                        w,
                    );
                if a.index == b.index {
                    lemma_splat_injective(px, py, oxa, oya, ox0, oyb, r, w, h);
                }
            }
        }
    }
}

/// An offset whose squared length is at most `r * r` lies in the square of side `2r + 1`.
proof fn lemma_reach_in_square(ox: int, oy: int, r: int)
    requires
        0 <= r,
        ox * ox + oy * oy <= r * r,
    ensures
        -r <= ox <= r,
        -r <= oy <= r,
        0 <= ox * ox + oy * oy,
{
    assert(0 <= ox * ox && 0 <= oy * oy) by (nonlinear_arith);
    assert(ox * ox <= r * r ==> -r <= ox <= r) by (nonlinear_arith)
        requires
            0 <= r,
    ;
    assert(oy * oy <= r * r ==> -r <= oy <= r) by (nonlinear_arith)
        requires
            0 <= r,
    ;
}

/// The cells a body bends are exactly the grid cells within its radius:
/// a record belongs to `influence_splats` if and only if it is the record of
/// an offset `(ox, oy)` whose cell lies on the grid with
/// `ox * ox + oy * oy <= r * r`. Each such record names a cell of the grid
/// and carries a squared distance of at most `r * r`, and no cell is named twice.
pub proof fn law_influence_is_the_disc(px: int, py: int, r: int, w: int, h: int)
    requires
        0 <= r,
        2 * r * r <= i32::MAX,
        w * h <= u32::MAX,
    ensures
        forall|s: Splat|
            #[trigger] influence_splats(px, py, r, w, h).contains(s) <==> exists|ox: int, oy: int|
                reaches(px, py, ox, oy, r, w, h) && s == #[trigger] splat_at(px, py, ox, oy, w),
        forall|s: Splat| #[trigger]
            influence_splats(px, py, r, w, h).contains(s) ==> s.index < w * h && s.dist_sq <= r
                * r,
        distinct_cells(influence_splats(px, py, r, w, h)),
{
    let m = (2 * r + 1) as nat;
    lemma_block_members(px, py, r, w, h, m);
    lemma_block_distinct(px, py, r, w, h, m);
    assert(r * r <= i32::MAX) by (nonlinear_arith)
        requires
            0 <= r,
            2 * r * r <= i32::MAX,
    ;
    assert forall|s: Splat| #[trigger]
        influence_splats(px, py, r, w, h).contains(s) implies (exists|ox: int, oy: int|
        reaches(px, py, ox, oy, r, w, h) && s == #[trigger] splat_at(px, py, ox, oy, w)) && s.index
        < w * h && s.dist_sq <= r * r by {
        let (ox, oy) = choose|ox: int, oy: int|
            -r <= ox < -r + m && -r <= oy <= r && reaches(px, py, ox, oy, r, w, h) && s
                == #[trigger] splat_at(px, py, ox, oy, w);
        lemma_reach_in_square(ox, oy, r);
        lemma_grid_index_bound(px + ox, py + oy, w, h);
    }
    assert forall|s: Splat|
        (exists|ox: int, oy: int|
            reaches(px, py, ox, oy, r, w, h) && s == #[trigger] splat_at(
                px,
                py,
                ox,
                oy,
                w,
            )) implies #[trigger] influence_splats(px, py, r, w, h).contains(s) by {
        let (ox, oy) = choose|ox: int, oy: int|
            reaches(px, py, ox, oy, r, w, h) && s == #[trigger] splat_at(px, py, ox, oy, w);
        lemma_reach_in_square(ox, oy, r);
    }
}

/// A body standing on the grid bends its own cell, at distance zero.
pub proof fn law_influence_holds_own_cell(px: int, py: int, r: int, w: int, h: int)
    requires
        0 <= r,
        2 * r * r <= i32::MAX,
        w * h <= u32::MAX,
        in_grid(px, py, w, h),
    ensures
        influence_splats(px, py, r, w, h).contains(
            Splat { index: grid_index(px, py, w) as usize, dist_sq: 0 },
        ),
{
    law_influence_is_the_disc(px, py, r, w, h);
    assert(reaches(px, py, 0, 0, r, w, h));
    assert(splat_at(px, py, 0, 0, w) == Splat { index: grid_index(px, py, w) as usize, dist_sq: 0 });
}

/// Every grid cell within the radius is bent, with its squared distance: for
/// each offset `(ox, oy)` with `0 <= px + ox < w`, `0 <= py + oy < h` and
/// `ox * ox + oy * oy <= r * r`, the cells hold the record of storage index
/// `(py + oy) * w + (px + ox)` and squared distance `ox * ox + oy * oy`.
pub proof fn law_influence_complete(px: int, py: int, r: int, w: int, h: int, ox: int, oy: int)
    requires
        0 <= r,
        2 * r * r <= i32::MAX,
        w * h <= u32::MAX,
        0 <= px + ox < w,
        0 <= py + oy < h,
        ox * ox + oy * oy <= r * r,
    ensures
        influence_splats(px, py, r, w, h).contains(
            Splat { index: ((py + oy) * w + (px + ox)) as usize, dist_sq: (ox * ox + oy * oy) as u32 },
        ),
{
    law_influence_is_the_disc(px, py, r, w, h);
    assert(reaches(px, py, ox, oy, r, w, h));
    assert(influence_splats(px, py, r, w, h).contains(splat_at(px, py, ox, oy, w)));
}

/// Nothing but grid cells within the radius is bent: the `k`-th record names
/// a cell below `w * h`, which is column `x = index % w` of row
/// `y = index / w`, with `(x - px)^2 + (y - py)^2 <= r * r`, and its squared
/// distance is that sum.
pub proof fn law_influence_sound(px: int, py: int, r: int, w: int, h: int, k: int)
    requires
        0 <= r,
        2 * r * r <= i32::MAX,
        w * h <= u32::MAX,
        0 <= k < influence_splats(px, py, r, w, h).len(),
    ensures
        ({
            let s = influence_splats(px, py, r, w, h)[k];
            let x = s.index as int % w;
            let y = s.index as int / w;
            &&& 0 <= s.index < w * h
            &&& 0 <= x < w
            &&& 0 <= y < h
            &&& (x - px) * (x - px) + (y - py) * (y - py) <= r * r
            &&& s.dist_sq == (x - px) * (x - px) + (y - py) * (y - py)
        }),
{
    let seq = influence_splats(px, py, r, w, h);
    let s = seq[k];
    law_influence_is_the_disc(px, py, r, w, h);
    assert(seq.contains(s));
    let (ox, oy) = choose|ox: int, oy: int|
        reaches(px, py, ox, oy, r, w, h) && s == #[trigger] splat_at(px, py, ox, oy, w);
    lemma_grid_index_bound(px + ox, py + oy, w, h);
    lemma_reach_in_square(ox, oy, r);
    assert(r * r <= i32::MAX) by (nonlinear_arith)
        requires
            0 <= r,
            2 * r * r <= i32::MAX,
    ;
    assert(s.index as int == (py + oy) * w + (px + ox));
    vstd::arithmetic::div_mod::lemma_fundamental_div_mod_converse(
        s.index as int,
        w,
        py + oy,
        px + ox,
    );
    assert(s.dist_sq as int == ox * ox + oy * oy);
}

/// No cell is bent twice: distinct records name distinct cells.
pub proof fn law_influence_no_repeat(px: int, py: int, r: int, w: int, h: int, i: int, j: int)
    requires
        0 <= r,
        2 * r * r <= i32::MAX,
        w * h <= u32::MAX,
        0 <= i < influence_splats(px, py, r, w, h).len(),
        0 <= j < influence_splats(px, py, r, w, h).len(),
        i != j,
    ensures
        influence_splats(px, py, r, w, h)[i].index != influence_splats(px, py, r, w, h)[j].index,
{
    law_influence_is_the_disc(px, py, r, w, h);
}

/// The record of a reached offset names column `px + ox` of row `py + oy`.
proof fn lemma_splat_coords(px: int, py: int, ox: int, oy: int, r: int, w: int, h: int)
    requires
        w * h <= u32::MAX,
        reaches(px, py, ox, oy, r, w, h),
    ensures
        splat_at(px, py, ox, oy, w).index as int % w == px + ox,
        splat_at(px, py, ox, oy, w).index as int / w == py + oy,
{
    lemma_grid_index_bound(px + ox, py + oy, w, h);
    vstd::arithmetic::div_mod::lemma_fundamental_div_mod_converse(
        splat_at(px, py, ox, oy, w).index as int,
        w,
        py + oy,
        px + ox,
    );
}

/// Within one column the records go down the rows: their rows strictly increase.
proof fn lemma_column_sorted(px: int, py: int, ox: int, r: int, w: int, h: int, n: nat)
    requires
        w * h <= u32::MAX,
    ensures
        forall|k: int|
            0 <= k < column_splats(px, py, ox, r, w, h, n).len() ==> #[trigger] column_splats(
                px,
                py,
                ox,
                r,
                w,
                h,
                n,
            )[k].index as int % w == px + ox,
        forall|i: int, j: int|
            0 <= i < j < column_splats(px, py, ox, r, w, h, n).len() ==> #[trigger] column_splats(
                px,
                py,
                ox,
                r,
                w,
                h,
                n,
            )[i].index as int / w < #[trigger] column_splats(px, py, ox, r, w, h, n)[j].index as int
                / w,
        forall|k: int|
            0 <= k < column_splats(px, py, ox, r, w, h, n).len() ==> #[trigger] column_splats(
                px,
                py,
                ox,
                r,
                w,
                h,
                n,
            )[k].index as int / w < py - r + n,
    decreases n,
{
    if n > 0 {
        lemma_column_sorted(px, py, ox, r, w, h, (n - 1) as nat);
        lemma_column_members(px, py, ox, r, w, h, (n - 1) as nat);
        let oy0 = -r + n - 1;
        let before = column_splats(px, py, ox, r, w, h, (n - 1) as nat);
        let col = column_splats(px, py, ox, r, w, h, n);
        if reaches(px, py, ox, oy0, r, w, h) {
            lemma_splat_coords(px, py, ox, oy0, r, w, h);
            assert forall|k: int| 0 <= k < col.len() implies #[trigger] col[k].index as int % w == px
                + ox && col[k].index as int / w < py - r + n by {
                if k < before.len() {
                    assert(col[k] == before[k]);
                }
            }
            assert forall|i: int, j: int| 0 <= i < j < col.len() implies #[trigger] col[i].index as int
                / w < #[trigger] col[j].index as int / w by {
                assert(col[i] == before[i]);
                if j < before.len() {
                    assert(col[j] == before[j]);
                }
            }
        } else {
            assert(col == before);
        }
    }
}

/// Across the columns scanned so far, records go column by column, and
/// within a column row by row.
proof fn lemma_block_sorted(px: int, py: int, r: int, w: int, h: int, m: nat)
    requires
        0 <= r,
        w * h <= u32::MAX,
    ensures
        forall|k: int|
            0 <= k < block_splats(px, py, r, w, h, m).len() ==> #[trigger] block_splats(
                px,
                py,
                r,
                w,
                h,
                m,
            )[k].index as int % w < px - r + m,
        forall|i: int, j: int|
            0 <= i < j < block_splats(px, py, r, w, h, m).len() ==> ({
                let a = #[trigger] block_splats(px, py, r, w, h, m)[i].index as int;
                let b = #[trigger] block_splats(px, py, r, w, h, m)[j].index as int;
                a % w < b % w || (a % w == b % w && a / w < b / w)
            }),
    decreases m,
{
    if m > 0 {
        lemma_block_sorted(px, py, r, w, h, (m - 1) as nat);
        let ox0 = -r + m - 1;
        let n = (2 * r + 1) as nat;
        lemma_column_sorted(px, py, ox0, r, w, h, n);
        let before = block_splats(px, py, r, w, h, (m - 1) as nat);
        let col = column_splats(px, py, ox0, r, w, h, n);
        let all = before + col;
        assert(block_splats(px, py, r, w, h, m) == all);
        assert forall|k: int| 0 <= k < all.len() implies #[trigger] all[k].index as int % w < px - r
            + m by {
            if k < before.len() {
                assert(all[k] == before[k]);
            } else {
                assert(all[k] == col[k - before.len()]);
            }
        }
        assert forall|i: int, j: int| 0 <= i < j < all.len() implies ({
            let a = #[trigger] all[i].index as int;
            let b = #[trigger] all[j].index as int;
            a % w < b % w || (a % w == b % w && a / w < b / w)
        }) by {
            if j < before.len() {
                assert(all[i] == before[i]);
                assert(all[j] == before[j]);
            } else if i >= before.len() {
                assert(all[i] == col[i - before.len()]);
                assert(all[j] == col[j - before.len()]);
            } else {
                assert(all[i] == before[i]);
                assert(all[j] == col[j - before.len()]);
            }
        }
    }
}

/// The cells come in the order of the scan: column by column from left to
/// right, and within a column from top to bottom. Of two records `i < j`,
/// record `i` names a column `index % w` further left, or the same column and
/// a row `index / w` further up.
pub proof fn law_influence_scan_order(px: int, py: int, r: int, w: int, h: int, i: int, j: int)
    requires
        0 <= r,
        w * h <= u32::MAX,
        0 <= i < j < influence_splats(px, py, r, w, h).len(),
    ensures
        ({
            let a = influence_splats(px, py, r, w, h)[i].index as int;
            let b = influence_splats(px, py, r, w, h)[j].index as int;
            a % w < b % w || (a % w == b % w && a / w < b / w)
        }),
{
    lemma_block_sorted(px, py, r, w, h, (2 * r + 1) as nat);
}

} // verus!
