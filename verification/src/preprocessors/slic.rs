//! SLIC superpixels: the whole-number parts.
//!
//! Cluster centres start on a regular grid and are nudged to the lowest
//! colour gradient nearby; after the (floating-point) clustering, regions
//! that fell apart are made connected again and small ones merged into a
//! neighbour.

use vstd::prelude::*;

use crate::color::{rgb_dist_sq, Rgb};
use crate::preprocessors::seeds::{lemma_cell, neighbor_cell, neighbor_of};

verus! {

/// The pixel at `(x, y)` of a row-major image `w` pixels wide.
pub open spec fn px_at(p: Seq<Rgb>, w: int, x: int, y: int) -> Rgb {
    p[y * w + x]
}

/// The colour gradient at `(x, y)`: the squared colour difference across
/// the pixel horizontally plus that vertically, using the pixel itself where
/// a side is missing; zero where a whole direction is missing.
pub open spec fn gradient_at(p: Seq<Rgb>, w: int, h: int, x: int, y: int) -> int {
    if w <= 1 || h <= 1 {
        0
    } else {
        let (lx, rx) = if x > 0 && x + 1 < w {
            (x - 1, x + 1)
        } else if x + 1 < w {
            (x, x + 1)
        } else {
            (x - 1, x)
        };
        let (ty, by) = if y > 0 && y + 1 < h {
            (y - 1, y + 1)
        } else if y + 1 < h {
            (y, y + 1)
        } else {
            (y - 1, y)
        };
        rgb_dist_sq(px_at(p, w, rx, y), px_at(p, w, lx, y)) + rgb_dist_sq(
            px_at(p, w, x, by),
            px_at(p, w, x, ty),
        )
    }
}

/// On an image at least two pixels wide and high, the gradient at `(x, y)`
/// is the squared colour difference between the pixel to its right and the
/// pixel to its left, plus that between the pixel below and the pixel above,
/// where a missing neighbour at an edge is the pixel itself; so it is zero
/// exactly when both pairs agree. On a narrower or flatter image it is zero.
pub proof fn lemma_gradient_both_directions(p: Seq<Rgb>, w: int, h: int, x: int, y: int)
    requires
        0 <= x < w,
        0 <= y < h,
    ensures
        ({
            let left = p[y * w + if x > 0 { x - 1 } else { x }];
            let right = p[y * w + if x + 1 < w { x + 1 } else { x }];
            let above = p[(if y > 0 { y - 1 } else { y }) * w + x];
            let below = p[(if y + 1 < h { y + 1 } else { y }) * w + x];
            &&& w >= 2 && h >= 2 ==> gradient_at(p, w, h, x, y) == rgb_dist_sq(right, left) + rgb_dist_sq(
                below,
                above,
            )
            &&& w >= 2 && h >= 2 ==> (gradient_at(p, w, h, x, y) == 0 <==> right == left && below == above)
            &&& gradient_at(p, w, h, x, y) >= 0
            &&& (w < 2 || h < 2) ==> gradient_at(p, w, h, x, y) == 0
        }),
{
    let left = p[y * w + if x > 0 { x - 1 } else { x }];
    let right = p[y * w + if x + 1 < w { x + 1 } else { x }];
    let above = p[(if y > 0 { y - 1 } else { y }) * w + x];
    let below = p[(if y + 1 < h { y + 1 } else { y }) * w + x];
    crate::algorithms::kmeans::lemma_dist_zero(right, left);
    crate::algorithms::kmeans::lemma_dist_zero(below, above);
}

/// The colour gradient at `(x, y)`.
fn gradient(pixels: &[Rgb], width: usize, height: usize, x: usize, y: usize) -> (g: u32)
    requires
        pixels@.len() == width * height,
        width * height <= usize::MAX,
        x < width,
        y < height,
    ensures
        g == gradient_at(pixels@, width as int, height as int, x as int, y as int),
        g <= 2 * 195075,
{
    let ghost (w, h) = (width as int, height as int);
    let (lx, rx) = if x > 0 && x + 1 < width {
        (x - 1, x + 1)
    } else if x + 1 < width {
        (x, x + 1)
    } else if x > 0 {
        (x - 1, x)
    } else {
        return 0;
    };
    let (ty, by) = if y > 0 && y + 1 < height {
        (y - 1, y + 1)
    } else if y + 1 < height {
        (y, y + 1)
    } else if y > 0 {
        (y - 1, y)
    } else {
        return 0;
    };
    proof {
        lemma_cell(w, h, lx as int, y as int);
        lemma_cell(w, h, rx as int, y as int);
        lemma_cell(w, h, x as int, ty as int);
        lemma_cell(w, h, x as int, by as int);
    }
    let horiz = pixels[y * width + rx].distance_squared(pixels[y * width + lx]);
    let vert = pixels[by * width + x].distance_squared(pixels[ty * width + x]);
    proof {
        crate::algorithms::kmeans::lemma_dist_zero(pixels@[y * width + rx], pixels@[y * width + lx]);
        crate::algorithms::kmeans::lemma_dist_zero(pixels@[by * width + x], pixels@[ty * width + x]);
    }
    horiz + vert
}

/// The window of cells around `(cx, cy)`: one step each way, clipped to the
/// image.
pub open spec fn window(cx: int, cy: int, w: int, h: int) -> (int, int, int, int) {
    (
        if cx > 0 {
            cx - 1
        } else {
            0
        },
        if cy > 0 {
            cy - 1
        } else {
            0
        },
        if cx + 2 < w {
            cx + 2
        } else {
            w
        },
        if cy + 2 < h {
            cy + 2
        } else {
            h
        },
    )
}

/// The window around a cell of the image holds exactly the cells of the
/// image at most one step from it along each axis.
pub proof fn lemma_window_is_neighbourhood(cx: int, cy: int, w: int, h: int, x: int, y: int)
    requires
        0 <= cx < w,
        0 <= cy < h,
    ensures
        ({
            let (x0, y0, x1, y1) = window(cx, cy, w, h);
            x0 <= x < x1 && y0 <= y < y1
        }) <==> (0 <= x < w && 0 <= y < h && cx - 1 <= x <= cx + 1 && cy - 1 <= y <= cy + 1),
{
}

/// Cell `(x, y)` comes before `(x2, y2)` in row-major order.
pub open spec fn scans_before(x: int, y: int, x2: int, y2: int) -> bool {
    y < y2 || (y == y2 && x < x2)
}

/// The cell of lowest gradient in the window around `(cx, cy)`; of equal
/// ones, the first in row-major order.
pub fn lowest_gradient(pixels: &[Rgb], width: usize, height: usize, cx: usize, cy: usize) -> (r: (usize, usize))
    requires
        pixels@.len() == width * height,
        width * height <= usize::MAX,
        cx < width,
        cy < height,
    ensures
        ({
            let (x0, y0, x1, y1) = window(cx as int, cy as int, width as int, height as int);
            &&& x0 <= r.0 < x1
            &&& y0 <= r.1 < y1
            &&& forall|x: int, y: int|
                x0 <= x < x1 && y0 <= y < y1 ==> gradient_at(pixels@, width as int, height as int, r.0 as int, r.1 as int)
                    <= #[trigger] gradient_at(pixels@, width as int, height as int, x, y)
            &&& forall|x: int, y: int|
                x0 <= x < x1 && y0 <= y < y1 && scans_before(x, y, r.0 as int, r.1 as int)
                    ==> gradient_at(pixels@, width as int, height as int, r.0 as int, r.1 as int)
                    < #[trigger] gradient_at(pixels@, width as int, height as int, x, y)
        }),
{
    let ghost (w, h) = (width as int, height as int);
    let mut best_x = cx;
    let mut best_y = cy;
    let mut best_grad: u32 = u32::MAX;
    let y_start = if cy > 0 {
        cy - 1
    } else {
        0
    };
    let y_end = if height - cy > 2 {
        cy + 2
    } else {
        height
    };
    let x_start = if cx > 0 {
        cx - 1
    } else {
        0
    };
    let x_end = if width - cx > 2 {
        cx + 2
    } else {
        width
    };
    let ghost p = pixels@;
    let mut y = y_start;
    while y < y_end
        invariant
            p == pixels@,
            p.len() == w * h,
            w * h <= usize::MAX,
            w == width,
            h == height,
            x_start < x_end <= width,
            y_start < y_end <= height,
            y_start <= y <= y_end,
            y == y_start ==> best_grad == u32::MAX && best_x == cx && best_y == cy,
            y > y_start ==> {
                &&& x_start <= best_x < x_end
                &&& y_start <= best_y < y
                &&& best_grad == gradient_at(p, w, h, best_x as int, best_y as int)
                &&& forall|xx: int, yy: int|
                    x_start <= xx < x_end && y_start <= yy < y ==> best_grad <= #[trigger] gradient_at(p, w, h, xx, yy)
                &&& forall|xx: int, yy: int|
                    x_start <= xx < x_end && y_start <= yy < y && scans_before(xx, yy, best_x as int, best_y as int)
                        ==> best_grad < #[trigger] gradient_at(p, w, h, xx, yy)
            },
        decreases y_end - y,
    {
        let mut x = x_start;
        while x < x_end
            invariant
                p == pixels@,
                p.len() == w * h,
                w * h <= usize::MAX,
                w == width,
                h == height,
                x_start < x_end <= width,
                y_start <= y < y_end <= height,
                x_start <= x <= x_end,
                y == y_start && x == x_start ==> best_grad == u32::MAX && best_x == cx && best_y == cy,
                !(y == y_start && x == x_start) ==> {
                    &&& x_start <= best_x < x_end
                    &&& y_start <= best_y <= y
                    &&& best_grad == gradient_at(p, w, h, best_x as int, best_y as int)
                    &&& forall|xx: int, yy: int|
                        x_start <= xx < x_end && (y_start <= yy < y || (yy == y && xx < x)) ==> best_grad
                            <= #[trigger] gradient_at(p, w, h, xx, yy)
                    &&& forall|xx: int, yy: int|
                        x_start <= xx < x_end && (y_start <= yy < y || (yy == y && xx < x)) && scans_before(
                            xx,
                            yy,
                            best_x as int,
                            best_y as int,
                        ) ==> best_grad < #[trigger] gradient_at(p, w, h, xx, yy)
                    &&& (best_y < y || best_x < x)
                },
            decreases x_end - x,
        {
            let g = gradient(pixels, width, height, x, y);
            if g < best_grad {
                best_grad = g;
                best_x = x;
                best_y = y;
            }
            x = x + 1;
        }
        y = y + 1;
    }
    (best_x, best_y)
}

/// How many grid coordinates `half, half + s, half + 2s, ...` lie below `n`.
pub open spec fn grid_count(n: int, s: int) -> int {
    if s / 2 < n {
        (n - s / 2 - 1) / s + 1
    } else {
        0
    }
}

/// The initial centre positions for grid step `s`: every `(x, y)` with both
/// coordinates on the grid `s / 2, s / 2 + s, ...`, row by row; the middle
/// of the image when the grid has no point inside it.
pub open spec fn center_positions(w: int, h: int, s: int) -> Seq<(usize, usize)> {
    let nx = grid_count(w, s);
    let ny = grid_count(h, s);
    if nx * ny == 0 {
        seq![((w / 2) as usize, (h / 2) as usize)]
    } else {
        Seq::new(
            (nx * ny) as nat,
            |k: int| ((s / 2 + (k % nx) * s) as usize, (s / 2 + (k / nx) * s) as usize),
        )
    }
}

proof fn lemma_grid_count(n: int, s: int, i: int)
    requires
        s >= 1,
        n >= 0,
        i >= 0,
    ensures
        s / 2 + i * s < n <==> i < grid_count(n, s),
        grid_count(n, s) >= 0,
{
    let hs = s / 2;
    if hs < n {
        assert(s / 2 + i * s < n <==> i < (n - s / 2 - 1) / s + 1) by (nonlinear_arith)
            requires
                s >= 1,
                i >= 0,
                hs == s / 2,
                hs < n,
        ;
    } else {
        assert(i * s >= 0) by (nonlinear_arith)
            requires
                i >= 0,
                s >= 1,
        ;
    }
}

/// The initial SLIC centres: the grid positions `s / 2 + i·s` in both
/// directions, row by row, or the middle of the image when none fits.
pub fn init_centers(width: usize, height: usize, s: usize) -> (centers: Vec<(usize, usize)>)
    requires
        1 <= width,
        1 <= height,
        1 <= s,
        width * height <= usize::MAX,
        width + s <= usize::MAX,
        height + s <= usize::MAX,
    ensures
        centers@ == center_positions(width as int, height as int, s as int),
{
    let ghost (w, h, si) = (width as int, height as int, s as int);
    let ghost nx = grid_count(w, si);
    let ghost ny = grid_count(h, si);
    let mut centers: Vec<(usize, usize)> = Vec::new();
    let half_s = s / 2;
    let mut y = half_s;
    let ghost mut iy: int = 0;
    while y < height
        invariant
            w == width,
            h == height,
            si == s,
            s >= 1,
            width + s <= usize::MAX,
            height + s <= usize::MAX,
            nx == grid_count(w, si),
            ny == grid_count(h, si),
            nx >= 0,
            ny >= 0,
            half_s == s / 2,
            iy >= 0,
            y == half_s + iy * s,
            iy <= ny,
            iy < ny <==> y < height,
            centers@.len() == iy * nx,
            forall|k: int|
                0 <= k < centers@.len() ==> #[trigger] centers@[k] == ((si / 2 + (k % nx) * si) as usize, (si / 2
                    + (k / nx) * si) as usize),
        decreases h + si - y,
    {
        let mut x = half_s;
        let ghost mut ix: int = 0;
        proof {
            lemma_grid_count(w, si, 0);
        }
        while x < width
            invariant
                w == width,
                h == height,
                si == s,
                s >= 1,
                width + s <= usize::MAX,
                height + s <= usize::MAX,
                nx == grid_count(w, si),
                ny == grid_count(h, si),
                nx >= 0,
                half_s == s / 2,
                iy >= 0,
                iy < ny,
                y == half_s + iy * s,
                y < height,
                ix >= 0,
                x == half_s + ix * s,
                ix <= nx,
                ix < nx <==> x < width,
                centers@.len() == iy * nx + ix,
                forall|k: int|
                    0 <= k < centers@.len() ==> #[trigger] centers@[k] == ((si / 2 + (k % nx) * si) as usize, (si
                        / 2 + (k / nx) * si) as usize),
            decreases w + si - x,
        {
            proof {
                let k = iy * nx + ix;
                assert(k % nx == ix && k / nx == iy) by {
                    vstd::arithmetic::div_mod::lemma_fundamental_div_mod_converse(k, nx, iy, ix);
                }
                lemma_grid_count(w, si, ix + 1);
                assert(x + s == half_s + (ix + 1) * s) by (nonlinear_arith)
                    requires
                        x == half_s + ix * s,
                ;
            }
            centers.push((x, y));
            x = x + s;
            proof {
                ix = ix + 1;
            }
        }
        proof {
            assert(iy * nx + nx == (iy + 1) * nx) by (nonlinear_arith);
            lemma_grid_count(h, si, iy + 1);
            assert(y + s == half_s + (iy + 1) * s) by (nonlinear_arith)
                requires
                    y == half_s + iy * s,
            ;
            iy = iy + 1;
        }
        y = y + s;
    }
    proof {
        lemma_grid_count(h, si, 0);
        lemma_grid_count(w, si, 0);
        assert(iy == ny);
        if nx * ny != 0 {
            assert(centers@ =~= center_positions(w, h, si));
        } else {
            assert(centers@.len() == 0) by (nonlinear_arith)
                requires
                    centers@.len() == iy * nx,
                    iy == ny,
                    nx * ny == 0,
            ;
        }
    }
    if centers.len() == 0 {
        centers.push((width / 2, height / 2));
        proof {
            assert(centers@ =~= center_positions(w, h, si));
        }
    }
    centers
}


/// The neighbour of cell `i` of a `w × h` grid in direction `d` (right,
/// left, below, above), if it lies inside.
pub open spec fn nbr(i: int, w: int, h: int, d: int) -> Option<int> {
    neighbor_of(i % w, i / w, w, h, d)
}

/// Any two 4-adjacent cells with equal labels in `orig` have equal labels in
/// `l`, wherever the first is set (not `u32::MAX`).
pub open spec fn closed_under(orig: Seq<u32>, l: Seq<u32>, w: int, h: int) -> bool {
    forall|j: int, d: int|
        0 <= j < w * h && 0 <= d < 4 && l[j] != u32::MAX && (#[trigger] nbr(j, w, h, d) matches Some(k) && orig[j]
            == orig[k]) ==> l[nbr(j, w, h, d)->0] == l[j]
}

proof fn lemma_nbr(i: int, w: int, h: int, d: int)
    requires
        0 <= i < w * h,
        w >= 1,
        h >= 1,
        0 <= d < 4,
    ensures
        nbr(i, w, h, d) matches Some(k) ==> {
            &&& 0 <= k < w * h
            &&& exists|e: int| 0 <= e < 4 && #[trigger] nbr(k, w, h, e) == Some(i)
        },
{
    let (x, y) = (i % w, i / w);
    vstd::arithmetic::div_mod::lemma_fundamental_div_mod(i, w);
    assert(0 <= x < w);
    assert(0 <= y < h) by (nonlinear_arith)
        requires
            i == w * y + x,
            0 <= x < w,
            0 <= i < w * h,
            w >= 1,
    ;
    assert(i == y * w + x) by (nonlinear_arith)
        requires
            i == w * y + x,
    ;
    if let Some(k) = nbr(i, w, h, d) {
        if d == 0 {
            lemma_cell(w, h, x + 1, y);
            assert(nbr(k, w, h, 1) == Some(i));
        } else if d == 1 {
            lemma_cell(w, h, x - 1, y);
            assert(nbr(k, w, h, 0) == Some(i));
        } else if d == 2 {
            lemma_cell(w, h, x, y + 1);
            assert(nbr(k, w, h, 3) == Some(i));
        } else {
            lemma_cell(w, h, x, y - 1);
            assert(nbr(k, w, h, 2) == Some(i));
        }
    }
}

/// How many entries of `l` are unset (`u32::MAX`).
pub open spec fn unset_count(l: Seq<u32>) -> int
    decreases l.len(),
{
    if l.len() == 0 {
        0
    } else {
        unset_count(l.drop_last()) + if l.last() == u32::MAX {
            1int
        } else {
            0
        }
    }
}

proof fn lemma_unset_set(l: Seq<u32>, i: int, v: u32)
    requires
        0 <= i < l.len(),
        l[i] == u32::MAX,
        v != u32::MAX,
    ensures
        unset_count(l.update(i, v)) == unset_count(l) - 1,
        unset_count(l) >= 1,
    decreases l.len(),
{
    lemma_unset_nonneg(l.drop_last());
    if i < l.len() - 1 {
        assert(l.update(i, v).drop_last() =~= l.drop_last().update(i, v));
        lemma_unset_set(l.drop_last(), i, v);
    } else {
        assert(l.update(i, v).drop_last() =~= l.drop_last());
    }
}

proof fn lemma_unset_nonneg(l: Seq<u32>)
    ensures
        unset_count(l) >= 0,
    decreases l.len(),
{
    if l.len() > 0 {
        lemma_unset_nonneg(l.drop_last());
    }
}

/// The labels set so far respect the flood fill: labels other than `cl` are
/// closed under equal-label adjacency, and nothing exceeds `cl`.
pub open spec fn fill_ok(orig: Seq<u32>, l: Seq<u32>, w: int, h: int, cl: u32) -> bool {
    &&& forall|j: int| 0 <= j < w * h ==> #[trigger] l[j] == u32::MAX || l[j] <= cl
    &&& forall|j: int, d: int|
        0 <= j < w * h && 0 <= d < 4 && l[j] != u32::MAX && l[j] != cl && (#[trigger] nbr(j, w, h, d) matches Some(
            k,
        ) && orig[j] == orig[k]) ==> l[nbr(j, w, h, d)->0] == l[j]
}

/// The queue holds exactly the cells labelled `cl`, all of label `lab` in
/// `orig`.
pub open spec fn queue_ok(orig: Seq<u32>, l: Seq<u32>, q: Seq<usize>, n: int, cl: u32, lab: u32) -> bool {
    &&& forall|t: int| 0 <= t < q.len() ==> #[trigger] q[t] < n
    &&& forall|t: int| 0 <= t < q.len() ==> l[#[trigger] q[t] as int] == cl && orig[q[t] as int] == lab
    &&& forall|j: int| 0 <= j < n && #[trigger] l[j] == cl ==> exists|t: int| 0 <= t < q.len() && q[t] == j
}

/// The first `m` queued cells have had their equal-label neighbours labelled.
pub open spec fn expanded(orig: Seq<u32>, l: Seq<u32>, q: Seq<usize>, m: int, w: int, h: int, cl: u32, lab: u32) -> bool {
    forall|t: int, d: int|
        0 <= t < m && 0 <= d < 4 ==> (#[trigger] nbr(q[t] as int, w, h, d) matches Some(k) ==> (orig[k] == lab
            ==> l[k] == cl))
}

/// Every grid cell of `s` has its 4-adjacent cells of the same label in
/// `orig` in `s` too.
pub open spec fn closed_set(orig: Seq<u32>, w: int, h: int, s: Set<int>) -> bool {
    forall|c: int, d: int|
        s.contains(c) && 0 <= c < w * h && 0 <= d < 4 && (#[trigger] nbr(c, w, h, d) matches Some(k) && orig[k]
            == orig[c]) ==> s.contains(nbr(c, w, h, d)->0)
}

/// `r` is the 4-connected run of equal labels in `orig` that holds cell `i`:
/// the least set of grid cells that holds `i` and is closed under stepping to
/// an adjacent cell of the same label.
pub open spec fn is_region(orig: Seq<u32>, w: int, h: int, i: int, r: Set<int>) -> bool {
    &&& r.finite()
    &&& r.contains(i)
    &&& forall|c: int| #[trigger] r.contains(c) ==> 0 <= c < w * h
    &&& closed_set(orig, w, h, r)
    &&& forall|s: Set<int>| #[trigger] closed_set(orig, w, h, s) && s.contains(i) ==> r.subset_of(s)
}

/// The cells listed in `q`.
pub open spec fn cells_of(q: Seq<usize>) -> Set<int> {
    Set::new(|c: int| exists|t: int| 0 <= t < q.len() && q[t] as int == c)
}

/// `l` with every cell of `r` set to `v`.
pub open spec fn relabel(l: Seq<u32>, r: Set<int>, v: u32) -> Seq<u32> {
    Seq::new(l.len(), |j: int| if r.contains(j) { v } else { l[j] })
}

/// Cell `k` is labelled in `l`, lies outside `r`, and is 4-adjacent to a cell
/// of `r`.
pub open spec fn borders(l: Seq<u32>, w: int, h: int, r: Set<int>, k: int) -> bool {
    &&& 0 <= k < w * h
    &&& l[k] != u32::MAX
    &&& !r.contains(k)
    &&& exists|c: int, d: int| #![trigger r.contains(c), nbr(c, w, h, d)] r.contains(c) && 0 <= d < 4 && nbr(c, w, h, d) == Some(k)
}

/// Squared distance between cells `a` and `b` of a grid `w` cells wide.
pub open spec fn sq_dist(w: int, a: int, b: int) -> int {
    (a % w - b % w) * (a % w - b % w) + (a / w - b / w) * (a / w - b / w)
}

/// What a region `r` with first cell `i` merges into: `None` when no labelled
/// cell borders it, else the label of a bordering cell nearest to `i`.
pub open spec fn merge_target(l: Seq<u32>, w: int, h: int, r: Set<int>, i: int, m: Option<u32>) -> bool {
    match m {
        None => forall|k: int| #![trigger borders(l, w, h, r, k)] !borders(l, w, h, r, k),
        Some(v) => exists|k: int|
            #![trigger borders(l, w, h, r, k)]
            {
                &&& borders(l, w, h, r, k)
                &&& l[k] == v
                &&& forall|k2: int| #[trigger] borders(l, w, h, r, k2) ==> sq_dist(w, i, k) <= sq_dist(w, i, k2)
            },
    }
}

/// Position `(s, e)` comes before `(s2, e2)`: an earlier queue entry, or the
/// same entry and an earlier direction.
pub open spec fn before(s: int, e: int, s2: int, e2: int) -> bool {
    s < s2 || (s == s2 && e < e2)
}

/// Entry `t` of `q` was reached from entry `s` in direction `e`: `q[s]` is the
/// first entry of `q` that `q[t]` is 4-adjacent to.
pub open spec fn found_from(w: int, h: int, q: Seq<usize>, t: int, s: int, e: int) -> bool {
    &&& 0 <= s < t
    &&& 0 <= e < 4
    &&& nbr(q[s] as int, w, h, e) == Some(q[t] as int)
    &&& forall|s2: int, e2: int|
        0 <= s2 < s && 0 <= e2 < 4 ==> #[trigger] nbr(q[s2] as int, w, h, e2) != Some(q[t] as int)
}

/// `q` lists cells in breadth-first order from `i`: each later cell was
/// reached from an earlier one, and cells come in the order of the position
/// (entry, then direction right, left, below, above) they were reached from.
pub open spec fn bfs_order(w: int, h: int, i: int, q: Seq<usize>) -> bool {
    &&& q.len() >= 1
    &&& q[0] == i
    &&& bfs_reached(w, h, q)
    &&& bfs_sorted(w, h, q)
}

/// Every entry of `q` after the first was reached from an earlier one.
pub open spec fn bfs_reached(w: int, h: int, q: Seq<usize>) -> bool {
    forall|t: int| 0 < t < q.len() ==> #[trigger] reached_at(w, h, q, t)
}

/// Entry `t` of `q` was reached from an earlier entry.
pub open spec fn reached_at(w: int, h: int, q: Seq<usize>, t: int) -> bool {
    exists|s: int, e: int| #[trigger] found_from(w, h, q, t, s, e)
}

/// The entries of `q` come in the order of the positions they were reached
/// from.
pub open spec fn bfs_sorted(w: int, h: int, q: Seq<usize>) -> bool {
    forall|t1: int, t2: int, s1: int, e1: int, s2: int, e2: int|
        0 < t1 < t2 < q.len() && #[trigger] found_from(w, h, q, t1, s1, e1) && #[trigger] found_from(
            w,
            h,
            q,
            t2,
            s2,
            e2,
        ) ==> before(s1, e1, s2, e2)
}

/// The neighbour of entry `s` of `q` in direction `e` is labelled in `l` and
/// lies outside the cells of `q`.
pub open spec fn cand_at(l: Seq<u32>, w: int, h: int, q: Seq<usize>, s: int, e: int) -> bool {
    &&& 0 <= s < q.len()
    &&& 0 <= e < 4
    &&& nbr(q[s] as int, w, h, e) matches Some(k) && 0 <= k < w * h && l[k] != u32::MAX && !cells_of(q).contains(k)
}

/// Going through the entries of `q` in order and each one's neighbours
/// right, left, below, above, the first labelled neighbour outside `q` at
/// the least squared distance from `q[0]` carries label `v`.
pub open spec fn first_met(l: Seq<u32>, w: int, h: int, q: Seq<usize>, v: u32) -> bool {
    exists|s: int, e: int|
        #![trigger cand_at(l, w, h, q, s, e)]
        {
            let k = nbr(q[s] as int, w, h, e)->0;
            &&& cand_at(l, w, h, q, s, e)
            &&& l[k] == v
            &&& forall|s2: int, e2: int|
                #[trigger] cand_at(l, w, h, q, s2, e2) ==> sq_dist(w, q[0] as int, k) <= sq_dist(
                    w,
                    q[0] as int,
                    nbr(q[s2] as int, w, h, e2)->0,
                )
            &&& forall|s2: int, e2: int|
                #[trigger] cand_at(l, w, h, q, s2, e2) && before(s2, e2, s, e) ==> sq_dist(w, q[0] as int, k)
                    < sq_dist(w, q[0] as int, nbr(q[s2] as int, w, h, e2)->0)
        }
}

/// One step of the connectivity pass, at cell `i`, from labels and next fresh
/// label `a` to `b`. A cell already labelled is passed over. Otherwise its
/// region is labelled as a whole (see [`region_step`]).
pub open spec fn conn_step(
    orig: Seq<u32>,
    w: int,
    h: int,
    min_size: int,
    i: int,
    a: (Seq<u32>, u32),
    b: (Seq<u32>, u32),
) -> bool {
    if a.0[i] != u32::MAX {
        b == a
    } else {
        exists|q: Seq<usize>, m: Option<u32>| #[trigger] region_step(orig, w, h, min_size, i, a, b, q, m)
    }
}

/// Cell `i`'s region, listed in breadth-first order as `q`, is labelled as a
/// whole, from `a` to `b`: when it has fewer than `min_size` cells and a
/// labelled cell borders it, with the label `m` of the nearest such cell to
/// `i` (the first met, on a tie); otherwise with the next fresh label, which
/// is then used up.
pub open spec fn region_step(
    orig: Seq<u32>,
    w: int,
    h: int,
    min_size: int,
    i: int,
    a: (Seq<u32>, u32),
    b: (Seq<u32>, u32),
    q: Seq<usize>,
    m: Option<u32>,
) -> bool {
    let r = cells_of(q);
    &&& is_region(orig, w, h, i, r)
    &&& bfs_order(w, h, i, q)
    &&& r.len() < min_size ==> merge_target(a.0, w, h, r, i, m)
    &&& r.len() < min_size ==> (m matches Some(v) ==> first_met(a.0, w, h, q, v))
    &&& r.len() >= min_size ==> m is None
    &&& b == match m {
        Some(v) => (relabel(a.0, r, v), a.1),
        None => (relabel(a.0, r, a.1), (a.1 + 1) as u32),
    }
}

/// The connectivity pass over a `w × h` grid, cell by cell in row-major
/// order, starting with every cell unlabelled and fresh label 0.
pub open spec fn conn_run(orig: Seq<u32>, w: int, h: int, min_size: int, states: Seq<(Seq<u32>, u32)>) -> bool {
    &&& states.len() == w * h + 1
    &&& states[0] == (Seq::new((w * h) as nat, |j: int| u32::MAX), 0u32)
    &&& forall|i: int| 0 <= i < w * h ==> conn_step(orig, w, h, min_size, i, #[trigger] states[i], states[i + 1])
}

proof fn lemma_region_unique(orig: Seq<u32>, w: int, h: int, i: int, r1: Set<int>, r2: Set<int>)
    requires
        is_region(orig, w, h, i, r1),
        is_region(orig, w, h, i, r2),
    ensures
        r1 == r2,
{
    assert(closed_set(orig, w, h, r2) && r2.contains(i));
    assert(closed_set(orig, w, h, r1) && r1.contains(i));
    assert(r1 =~= r2);
}

/// The region of a cell is the region of every cell in it.
proof fn lemma_region_shared(orig: Seq<u32>, w: int, h: int, i: int, j: int, r: Set<int>)
    requires
        w >= 1,
        h >= 1,
        is_region(orig, w, h, i, r),
        r.contains(j),
    ensures
        is_region(orig, w, h, j, r),
{
    assert forall|s: Set<int>| #[trigger] closed_set(orig, w, h, s) && s.contains(j) implies r.subset_of(s) by {
        if !s.contains(i) {
            let u = r.difference(s);
            assert(closed_set(orig, w, h, u)) by {
                assert forall|c: int, d: int|
                    u.contains(c) && 0 <= c < w * h && 0 <= d < 4 && (#[trigger] nbr(c, w, h, d) matches Some(k)
                        && orig[k] == orig[c]) implies u.contains(nbr(c, w, h, d)->0) by {
                    let k = nbr(c, w, h, d)->0;
                    lemma_nbr(c, w, h, d);
                    assert(r.contains(k));
                    if s.contains(k) {
                        let e = choose|e: int| 0 <= e < 4 && #[trigger] nbr(k, w, h, e) == Some(c);
                        assert(nbr(k, w, h, e) matches Some(c2) && orig[c2] == orig[k]);
                        assert(s.contains(c));
                    }
                }
            }
            assert(u.contains(i));
            assert(r.subset_of(u));
            assert(u.contains(j));
        }
        assert(r.subset_of(s));
    }
}

/// What the connectivity pass keeps after its first `t` steps when no region
/// is small enough to merge: labelled cells carry one label per region, below
/// the next fresh one, and the first `t` cells are labelled.
spec fn unmerged(orig: Seq<u32>, w: int, h: int, t: int, st: (Seq<u32>, u32)) -> bool {
    &&& st.0.len() == w * h
    &&& forall|x: int| 0 <= x < w * h ==> #[trigger] st.0[x] == u32::MAX || st.0[x] < st.1
    &&& forall|x: int| 0 <= x < t ==> #[trigger] st.0[x] != u32::MAX
    &&& forall|x: int, y: int, r: Set<int>|
        0 <= x < w * h && 0 <= y < w * h && st.0[x] != u32::MAX && #[trigger] is_region(orig, w, h, x, r) ==> (
        #[trigger] st.0[y] == st.0[x] <==> r.contains(y))
}

proof fn lemma_unmerged_step(
    orig: Seq<u32>,
    w: int,
    h: int,
    min_size: int,
    t: int,
    a: (Seq<u32>, u32),
    b: (Seq<u32>, u32),
)
    requires
        w >= 1,
        h >= 1,
        w * h <= u32::MAX,
        min_size <= 1,
        0 <= t < w * h,
        unmerged(orig, w, h, t, a),
        conn_step(orig, w, h, min_size, t, a, b),
        a.1 < t + 1,
    ensures
        unmerged(orig, w, h, t + 1, b),
        b.1 <= t + 1,
{
    if a.0[t] == u32::MAX {
        let (q, m) = choose|q: Seq<usize>, m: Option<u32>| #[trigger] region_step(orig, w, h, min_size, t, a, b, q, m);
        let r = cells_of(q);
        assert(r.len() >= 1) by {
            vstd::set::axiom_set_contains_len(r, t);
        }
        assert(m is None);
        let c = a.1;
        assert(b.0 == relabel(a.0, r, c));
        assert forall|x: int, y: int, rx: Set<int>|
            0 <= x < w * h && 0 <= y < w * h && b.0[x] != u32::MAX && #[trigger] is_region(orig, w, h, x, rx) implies (
            #[trigger] b.0[y] == b.0[x] <==> rx.contains(y)) by {
            if r.contains(x) {
                lemma_region_shared(orig, w, h, t, x, r);
                lemma_region_unique(orig, w, h, x, r, rx);
            } else {
                assert(a.0[x] != u32::MAX);
                if r.contains(y) {
                    if rx.contains(y) {
                        lemma_region_shared(orig, w, h, x, y, rx);
                        lemma_region_shared(orig, w, h, t, y, r);
                        lemma_region_unique(orig, w, h, y, r, rx);
                    }
                } else {
                    assert(b.0[y] == a.0[y]);
                }
            }
        }
        assert(b.1 == c + 1);
        assert forall|x: int| 0 <= x < w * h implies #[trigger] b.0[x] == u32::MAX || b.0[x] < b.1 by {
            assert(b.0[x] == if r.contains(x) { c } else { a.0[x] });
            if !r.contains(x) {
                assert(b.0[x] == a.0[x]);
            }
        }
        assert forall|x: int| 0 <= x < t + 1 implies #[trigger] b.0[x] != u32::MAX by {
            assert(b.0[x] == if r.contains(x) { c } else { a.0[x] });
            if !r.contains(x) {
                assert(b.0[x] == a.0[x]);
            }
        }
    }
}

proof fn lemma_unmerged_upto(orig: Seq<u32>, w: int, h: int, min_size: int, states: Seq<(Seq<u32>, u32)>, t: int)
    requires
        w >= 1,
        h >= 1,
        w * h <= u32::MAX,
        min_size <= 1,
        conn_run(orig, w, h, min_size, states),
        0 <= t <= w * h,
    ensures
        unmerged(orig, w, h, t, states[t]),
        states[t].1 <= t,
    decreases t,
{
    if t > 0 {
        lemma_unmerged_upto(orig, w, h, min_size, states, t - 1);
        lemma_unmerged_step(orig, w, h, min_size, t - 1, states[t - 1], states[t]);
    } else {
        assert(states[0].0.len() == w * h);
    }
}

/// With no minimum size to reach, the connectivity pass gives two cells the
/// same label exactly when they lie in the same 4-connected run of equal
/// input labels.
pub proof fn lemma_connectivity_exact(
    orig: Seq<u32>,
    w: int,
    h: int,
    min_size: int,
    states: Seq<(Seq<u32>, u32)>,
    j: int,
    k: int,
    rj: Set<int>,
)
    requires
        w >= 1,
        h >= 1,
        w * h <= u32::MAX,
        min_size <= 1,
        conn_run(orig, w, h, min_size, states),
        0 <= j < w * h,
        0 <= k < w * h,
        is_region(orig, w, h, j, rj),
    ensures
        states.last().0[j] == states.last().0[k] <==> rj.contains(k),
{
    let n = w * h;
    lemma_unmerged_upto(orig, w, h, min_size, states, n);
    assert(states.last() == states[n]);
    assert(states[n].0[j] != u32::MAX);
}

/// The BFS bookkeeping of the flood fill so far: every entry after the first
/// was reached from an earlier one, from a position before `(s0, e0)`, and
/// entries come in the order of the positions they were reached from.
spec fn bfs_prefix(w: int, h: int, q: Seq<usize>, s0: int, e0: int) -> bool {
    &&& bfs_reached(w, h, q)
    &&& forall|t: int, s: int, e: int| 0 < t < q.len() && #[trigger] found_from(w, h, q, t, s, e) ==> before(s, e, s0, e0)
    &&& bfs_sorted(w, h, q)
}

proof fn lemma_bfs_next(w: int, h: int, q: Seq<usize>, s0: int, e0: int, s1: int, e1: int)
    requires
        bfs_prefix(w, h, q, s0, e0),
        !before(s1, e1, s0, e0),
    ensures
        bfs_prefix(w, h, q, s1, e1),
{
    assert forall|t: int, s: int, e: int| 0 < t < q.len() && #[trigger] found_from(w, h, q, t, s, e) implies before(
        s,
        e,
        s1,
        e1,
    ) by {
        assert(before(s, e, s0, e0));
    }
}

proof fn lemma_bfs_push(w: int, h: int, q: Seq<usize>, x: usize, s0: int, e0: int)
    requires
        w >= 1,
        q.len() >= 1,
        bfs_prefix(w, h, q, s0, e0),
        found_from(w, h, q.push(x), q.len() as int, s0, e0),
    ensures
        bfs_prefix(w, h, q.push(x), s0, e0 + 1),
{
    let q2 = q.push(x);
    let n0 = q.len() as int;
    assert forall|t: int, s: int, e: int|
        0 < t < q2.len() implies #[trigger] found_from(w, h, q2, t, s, e) == (if t < n0 {
            found_from(w, h, q, t, s, e)
        } else {
            s == s0 && e == e0
        }) by {
        if t < n0 {
            lemma_found_prefix(w, h, q, x, t, s, e);
        } else if found_from(w, h, q2, t, s, e) {
            lemma_found_unique(w, h, q2, t, s, e, s0, e0);
        }
    }
    assert forall|t: int| 0 < t < q2.len() implies #[trigger] reached_at(w, h, q2, t) by {
        if t < n0 {
            assert(reached_at(w, h, q, t));
            let (s, e) = choose|s: int, e: int| #[trigger] found_from(w, h, q, t, s, e);
            assert(found_from(w, h, q2, t, s, e));
        } else {
            assert(found_from(w, h, q2, t, s0, e0));
        }
    }
    assert forall|t: int, s: int, e: int| 0 < t < q2.len() && #[trigger] found_from(w, h, q2, t, s, e) implies before(
        s,
        e,
        s0,
        e0 + 1,
    ) by {
        if t < n0 {
            assert(found_from(w, h, q, t, s, e));
        }
    }
    assert forall|t1: int, t2: int, s1: int, e1: int, s2: int, e2: int|
        0 < t1 < t2 < q2.len() && #[trigger] found_from(w, h, q2, t1, s1, e1) && #[trigger] found_from(
            w,
            h,
            q2,
            t2,
            s2,
            e2,
        ) implies before(s1, e1, s2, e2) by {
        assert(found_from(w, h, q, t1, s1, e1));
        if t2 < n0 {
            assert(found_from(w, h, q, t2, s2, e2));
        }
    }
    assert(bfs_reached(w, h, q2));
    assert(bfs_sorted(w, h, q2));
}

proof fn lemma_nbr_inj(c: int, w: int, h: int, e1: int, e2: int)
    requires
        w >= 1,
        0 <= e1 < 4,
        0 <= e2 < 4,
        nbr(c, w, h, e1) is Some,
        nbr(c, w, h, e1) == nbr(c, w, h, e2),
    ensures
        e1 == e2,
{
    let (x, y) = (c % w, c / w);
    assert((y + 1) * w == y * w + w && (y - 1) * w == y * w - w) by (nonlinear_arith);
    assert(0 <= x < w) by {
        vstd::arithmetic::div_mod::lemma_fundamental_div_mod(c, w);
    }
}

proof fn lemma_found_unique(w: int, h: int, q: Seq<usize>, t: int, s1: int, e1: int, s2: int, e2: int)
    requires
        w >= 1,
        found_from(w, h, q, t, s1, e1),
        found_from(w, h, q, t, s2, e2),
    ensures
        s1 == s2 && e1 == e2,
{
    if s1 < s2 {
        assert(nbr(q[s1] as int, w, h, e1) != Some(q[t] as int));
    } else if s2 < s1 {
        assert(nbr(q[s2] as int, w, h, e2) != Some(q[t] as int));
    } else {
        lemma_nbr_inj(q[s1] as int, w, h, e1, e2);
    }
}

proof fn lemma_found_prefix(w: int, h: int, q: Seq<usize>, x: usize, t: int, s: int, e: int)
    requires
        0 <= t < q.len(),
    ensures
        found_from(w, h, q.push(x), t, s, e) == found_from(w, h, q, t, s, e),
{
    let q2 = q.push(x);
    if 0 <= s < t {
        assert(q2[s] == q[s] && q2[t] == q[t]);
        if found_from(w, h, q2, t, s, e) {
            assert forall|s2: int, e2: int| 0 <= s2 < s && 0 <= e2 < 4 implies #[trigger] nbr(q[s2] as int, w, h, e2)
                != Some(q[t] as int) by {
                assert(q2[s2] == q[s2]);
                assert(nbr(q2[s2] as int, w, h, e2) != Some(q2[t] as int));
            }
        }
        if found_from(w, h, q, t, s, e) {
            assert forall|s2: int, e2: int| 0 <= s2 < s && 0 <= e2 < 4 implies #[trigger] nbr(q2[s2] as int, w, h, e2)
                != Some(q2[t] as int) by {
                assert(q2[s2] == q[s2]);
                assert(nbr(q[s2] as int, w, h, e2) != Some(q[t] as int));
            }
        }
    }
}

/// Each cell after the first in `q` is 4-adjacent to an earlier one.
pub open spec fn grown_from(w: int, h: int, q: Seq<usize>) -> bool {
    forall|t: int|
        #![trigger q[t]]
        0 < t < q.len() ==> exists|p: int, d: int|
            #![trigger nbr(q[p] as int, w, h, d)]
            0 <= p < t && 0 <= d < 4 && nbr(q[p] as int, w, h, d) == Some(q[t] as int)
}

proof fn lemma_grown_within(orig: Seq<u32>, w: int, h: int, q: Seq<usize>, lab: u32, s: Set<int>, t: int)
    requires
        grown_from(w, h, q),
        forall|u: int| 0 <= u < q.len() ==> #[trigger] q[u] < w * h && orig[q[u] as int] == lab,
        q.len() >= 1,
        s.contains(q[0] as int),
        closed_set(orig, w, h, s),
        0 <= t < q.len(),
    ensures
        s.contains(q[t] as int),
    decreases t,
{
    if t > 0 {
        assert(q[t] < w * h);
        let (p, d) = choose|p: int, d: int|
            0 <= p < t && 0 <= d < 4 && #[trigger] nbr(q[p] as int, w, h, d) == Some(q[t] as int);
        lemma_grown_within(orig, w, h, q, lab, s, p);
        assert(q[p] < w * h && orig[q[p] as int] == lab);
        assert(nbr(q[p] as int, w, h, d) matches Some(k) && orig[k] == orig[q[p] as int]);
    }
}

proof fn lemma_cells_len(q: Seq<usize>)
    requires
        q.no_duplicates(),
    ensures
        cells_of(q).finite(),
        cells_of(q).len() == q.len(),
{
    let m = q.map_values(|x: usize| x as int);
    assert(m.no_duplicates()) by {
        assert forall|a: int, b: int| 0 <= a < m.len() && 0 <= b < m.len() && a != b implies m[a] != m[b] by {
            assert(q[a] != q[b]);
        }
    }
    m.unique_seq_to_set();
    vstd::seq_lib::seq_to_set_is_finite(m);
    assert(cells_of(q) =~= m.to_set()) by {
        assert forall|c: int| cells_of(q).contains(c) <==> m.to_set().contains(c) by {
            if cells_of(q).contains(c) {
                let t = choose|t: int| 0 <= t < q.len() && q[t] as int == c;
                assert(m[t] == c);
            }
            if m.to_set().contains(c) {
                assert(m.contains(c));
                let t = choose|t: int| 0 <= t < m.len() && m[t] == c;
                assert(q[t] as int == c);
            }
        }
    }
}

proof fn lemma_dist_bound(a: int, b: int, w: int, h: int)
    requires
        0 <= a < w,
        0 <= b < h,
        w * h <= u32::MAX,
    ensures
        a * a + b * b < u64::MAX,
{
    assert((w - 1) * (h - 1) >= 0) by (nonlinear_arith)
        requires
            w >= 1,
            h >= 1,
    ;
    assert(w * h == (w - 1) * (h - 1) + (w - 1) + (h - 1) + 1) by (nonlinear_arith);
    assert((a + b) * (a + b) <= 4294967294 * 4294967294) by (nonlinear_arith)
        requires
            0 <= a + b <= 4294967294,
    ;
    assert(a * a + b * b <= (a + b) * (a + b)) by (nonlinear_arith)
        requires
            a >= 0,
            b >= 0,
    ;
}

proof fn lemma_merge_same(l0: Seq<u32>, l1: Seq<u32>, w: int, h: int, r: Set<int>, i: int, m: Option<u32>)
    requires
        l0.len() == l1.len(),
        forall|j: int| 0 <= j < l0.len() && !r.contains(j) ==> l0[j] == l1[j],
        l0.len() == w * h,
    ensures
        merge_target(l1, w, h, r, i, m) ==> merge_target(l0, w, h, r, i, m),
{
    assert forall|k: int| #[trigger] borders(l0, w, h, r, k) == borders(l1, w, h, r, k) by {
        if 0 <= k < w * h && !r.contains(k) {
            assert(l0[k] == l1[k]);
        }
    }
    if merge_target(l1, w, h, r, i, m) {
        if let Some(v) = m {
            let k = choose|k: int|
                {
                    &&& #[trigger] borders(l1, w, h, r, k)
                    &&& l1[k] == v
                    &&& forall|k2: int| #[trigger] borders(l1, w, h, r, k2) ==> sq_dist(w, i, k) <= sq_dist(w, i, k2)
                };
            assert(borders(l0, w, h, r, k));
            assert(l0[k] == v);
        }
    }
}

/// Cell `k` is labelled in `l`, outside `r`, and the neighbour in some
/// direction of one of the first `t` cells of `q`, or of `q[t]` in a
/// direction below `d`.
spec fn seen(l: Seq<u32>, w: int, h: int, r: Set<int>, q: Seq<usize>, t: int, d: int, k: int) -> bool {
    &&& 0 <= k < w * h
    &&& l[k] != u32::MAX
    &&& !r.contains(k)
    &&& exists|s: int, e: int|
        #![trigger nbr(q[s] as int, w, h, e)]
        0 <= s < q.len() && 0 <= e < 4 && (s < t || (s == t && e < d)) && nbr(q[s] as int, w, h, e) == Some(k)
}

/// The nearest candidate among those seen so far.
spec fn best_ok(
    l: Seq<u32>,
    w: int,
    h: int,
    r: Set<int>,
    q: Seq<usize>,
    t: int,
    d: int,
    i: int,
    best: Option<u32>,
    bd: u64,
) -> bool {
    match best {
        None => forall|k: int| #![trigger seen(l, w, h, r, q, t, d, k)] !seen(l, w, h, r, q, t, d, k),
        Some(v) => exists|k: int|
            #![trigger seen(l, w, h, r, q, t, d, k)]
            {
                &&& seen(l, w, h, r, q, t, d, k)
                &&& l[k] == v
                &&& bd == sq_dist(w, i, k)
                &&& forall|k2: int| #[trigger] seen(l, w, h, r, q, t, d, k2) ==> bd <= sq_dist(w, i, k2)
            },
    }
}

proof fn lemma_seen_step(l: Seq<u32>, w: int, h: int, r: Set<int>, q: Seq<usize>, t: int, d: int, k: int)
    requires
        0 <= t < q.len(),
        0 <= d < 4,
    ensures
        seen(l, w, h, r, q, t, d + 1, k) == (seen(l, w, h, r, q, t, d, k) || (0 <= k < w * h && l[k] != u32::MAX
            && !r.contains(k) && nbr(q[t] as int, w, h, d) == Some(k))),
{
    if seen(l, w, h, r, q, t, d + 1, k) {
        let (s, e) = choose|s: int, e: int|
            0 <= s < q.len() && 0 <= e < 4 && (s < t || (s == t && e < d + 1)) && #[trigger] nbr(q[s] as int, w, h, e)
                == Some(k);
        if !(s == t && e == d) {
            assert(seen(l, w, h, r, q, t, d, k));
        }
    }
    if 0 <= k < w * h && l[k] != u32::MAX && !r.contains(k) && nbr(q[t] as int, w, h, d) == Some(k) {
        assert(seen(l, w, h, r, q, t, d + 1, k));
    }
    if seen(l, w, h, r, q, t, d, k) {
        let (s, e) = choose|s: int, e: int|
            0 <= s < q.len() && 0 <= e < 4 && (s < t || (s == t && e < d)) && #[trigger] nbr(q[s] as int, w, h, e)
                == Some(k);
        assert(seen(l, w, h, r, q, t, d + 1, k));
    }
}

proof fn lemma_seen_row(l: Seq<u32>, w: int, h: int, r: Set<int>, q: Seq<usize>, t: int, k: int)
    ensures
        seen(l, w, h, r, q, t, 4, k) == seen(l, w, h, r, q, t + 1, 0, k),
{
    if seen(l, w, h, r, q, t, 4, k) {
        let (s, e) = choose|s: int, e: int|
            0 <= s < q.len() && 0 <= e < 4 && (s < t || (s == t && e < 4)) && #[trigger] nbr(q[s] as int, w, h, e)
                == Some(k);
        assert(seen(l, w, h, r, q, t + 1, 0, k));
    }
    if seen(l, w, h, r, q, t + 1, 0, k) {
        let (s, e) = choose|s: int, e: int|
            0 <= s < q.len() && 0 <= e < 4 && (s < t + 1 || (s == t + 1 && e < 0)) && #[trigger] nbr(
                q[s] as int,
                w,
                h,
                e,
            ) == Some(k);
        assert(seen(l, w, h, r, q, t, 4, k));
    }
}

proof fn lemma_seen_all(l: Seq<u32>, w: int, h: int, q: Seq<usize>, k: int)
    ensures
        seen(l, w, h, cells_of(q), q, q.len() as int, 0, k) == borders(l, w, h, cells_of(q), k),
{
    let r = cells_of(q);
    if seen(l, w, h, r, q, q.len() as int, 0, k) {
        let (s, e) = choose|s: int, e: int|
            0 <= s < q.len() && 0 <= e < 4 && (s < q.len() || (s == q.len() && e < 0)) && #[trigger] nbr(
                q[s] as int,
                w,
                h,
                e,
            ) == Some(k);
        assert(r.contains(q[s] as int));
        assert(borders(l, w, h, r, k));
    }
    if borders(l, w, h, r, k) {
        let (c, d) = choose|c: int, d: int| #![trigger r.contains(c), nbr(c, w, h, d)] r.contains(c) && 0 <= d < 4 && nbr(c, w, h, d) == Some(k);
        let s = choose|s: int| 0 <= s < q.len() && q[s] as int == c;
        assert(nbr(q[s] as int, w, h, d) == Some(k));
        assert(seen(l, w, h, r, q, q.len() as int, 0, k));
    }
}

/// The first position, among those before `(t, d)`, that gives the nearest
/// candidate so far carries `best`, at squared distance `bd` from `q[0]`.
spec fn first_ok(l: Seq<u32>, w: int, h: int, q: Seq<usize>, t: int, d: int, best: Option<u32>, bd: u64) -> bool {
    match best {
        None => forall|s2: int, e2: int| #[trigger] cand_at(l, w, h, q, s2, e2) ==> !before(s2, e2, t, d),
        Some(v) => {
            &&& forall|s2: int, e2: int|
                #[trigger] cand_at(l, w, h, q, s2, e2) && before(s2, e2, t, d) ==> bd <= sq_dist(
                    w,
                    q[0] as int,
                    nbr(q[s2] as int, w, h, e2)->0,
                )
            &&& exists|s0: int, e0: int|
                #![trigger cand_at(l, w, h, q, s0, e0)]
                {
                    &&& before(s0, e0, t, d)
                    &&& cand_at(l, w, h, q, s0, e0)
                    &&& l[nbr(q[s0] as int, w, h, e0)->0] == v
                    &&& bd == sq_dist(w, q[0] as int, nbr(q[s0] as int, w, h, e0)->0)
                    &&& forall|s2: int, e2: int|
                        #[trigger] cand_at(l, w, h, q, s2, e2) && before(s2, e2, s0, e0) ==> bd < sq_dist(
                            w,
                            q[0] as int,
                            nbr(q[s2] as int, w, h, e2)->0,
                        )
                }
        },
    }
}

proof fn lemma_first_ok_step(
    l: Seq<u32>,
    w: int,
    h: int,
    q: Seq<usize>,
    t: int,
    d: int,
    b0: Option<u32>,
    bd0: u64,
    best: Option<u32>,
    bd: u64,
    found: bool,
    took: bool,
)
    requires
        0 <= d < 4,
        first_ok(l, w, h, q, t, d, b0, bd0),
        found == cand_at(l, w, h, q, t, d),
        took ==> found && (b0 is None || (bd as int) < bd0) && best == Some(l[nbr(q[t] as int, w, h, d)->0])
            && bd == sq_dist(w, q[0] as int, nbr(q[t] as int, w, h, d)->0),
        !took ==> best == b0 && bd == bd0 && (found ==> b0 is Some && bd0 <= sq_dist(
            w,
            q[0] as int,
            nbr(q[t] as int, w, h, d)->0,
        )),
    ensures
        first_ok(l, w, h, q, t, d + 1, best, bd),
{
    if took {
        assert forall|s2: int, e2: int| #[trigger] cand_at(l, w, h, q, s2, e2) && before(s2, e2, t, d + 1) implies bd
            <= sq_dist(w, q[0] as int, nbr(q[s2] as int, w, h, e2)->0) by {
            if before(s2, e2, t, d) {
                if b0 is Some {
                } else {
                    assert(!before(s2, e2, t, d));
                }
            }
        }
        assert forall|s2: int, e2: int| #[trigger] cand_at(l, w, h, q, s2, e2) && before(s2, e2, t, d) implies bd
            < sq_dist(w, q[0] as int, nbr(q[s2] as int, w, h, e2)->0) by {
            if b0 is None {
                assert(!before(s2, e2, t, d));
            }
        }
        assert(before(t, d, t, d + 1) && cand_at(l, w, h, q, t, d));
    } else {
        match best {
            None => {
                assert forall|s2: int, e2: int| #[trigger] cand_at(l, w, h, q, s2, e2) implies !before(s2, e2, t, d + 1) by {
                    assert(!before(s2, e2, t, d));
                    if s2 == t && e2 == d {
                        assert(found);
                    }
                }
            },
            Some(v) => {
                let (s0, e0) = choose|s0: int, e0: int|
                    {
                        &&& before(s0, e0, t, d)
                        &&& #[trigger] cand_at(l, w, h, q, s0, e0)
                        &&& l[nbr(q[s0] as int, w, h, e0)->0] == v
                        &&& bd0 == sq_dist(w, q[0] as int, nbr(q[s0] as int, w, h, e0)->0)
                        &&& forall|s2: int, e2: int|
                            #[trigger] cand_at(l, w, h, q, s2, e2) && before(s2, e2, s0, e0) ==> bd0 < sq_dist(
                                w,
                                q[0] as int,
                                nbr(q[s2] as int, w, h, e2)->0,
                            )
                    };
                assert(before(s0, e0, t, d + 1));
                assert forall|s2: int, e2: int| #[trigger] cand_at(l, w, h, q, s2, e2) && before(s2, e2, t, d + 1) implies bd
                    <= sq_dist(w, q[0] as int, nbr(q[s2] as int, w, h, e2)->0) by {
                    if !before(s2, e2, t, d) {
                        assert(s2 == t && e2 == d);
                    }
                }
            },
        }
    }
}

proof fn lemma_first_ok_row(l: Seq<u32>, w: int, h: int, q: Seq<usize>, t: int, best: Option<u32>, bd: u64)
    requires
        first_ok(l, w, h, q, t, 4, best, bd),
    ensures
        first_ok(l, w, h, q, t + 1, 0, best, bd),
{
    if let Some(v) = best {
        let (s0, e0) = choose|s0: int, e0: int|
            {
                &&& before(s0, e0, t, 4)
                &&& #[trigger] cand_at(l, w, h, q, s0, e0)
                &&& l[nbr(q[s0] as int, w, h, e0)->0] == v
                &&& bd == sq_dist(w, q[0] as int, nbr(q[s0] as int, w, h, e0)->0)
                &&& forall|s2: int, e2: int|
                    #[trigger] cand_at(l, w, h, q, s2, e2) && before(s2, e2, s0, e0) ==> bd < sq_dist(
                        w,
                        q[0] as int,
                        nbr(q[s2] as int, w, h, e2)->0,
                    )
            };
        assert(before(s0, e0, t + 1, 0));
        assert forall|s2: int, e2: int| #[trigger] cand_at(l, w, h, q, s2, e2) && before(s2, e2, t + 1, 0) implies bd
            <= sq_dist(w, q[0] as int, nbr(q[s2] as int, w, h, e2)->0) by {
            assert(before(s2, e2, t, 4));
        }
    } else {
        assert forall|s2: int, e2: int| #[trigger] cand_at(l, w, h, q, s2, e2) implies !before(s2, e2, t + 1, 0) by {
            assert(!before(s2, e2, t, 4));
        }
    }
}

proof fn lemma_first_ok_end(l: Seq<u32>, w: int, h: int, q: Seq<usize>, best: Option<u32>, bd: u64)
    requires
        first_ok(l, w, h, q, q.len() as int, 0, best, bd),
    ensures
        best matches Some(v) ==> first_met(l, w, h, q, v),
{
    if let Some(v) = best {
        let (s0, e0) = choose|s0: int, e0: int|
            {
                &&& before(s0, e0, q.len() as int, 0)
                &&& #[trigger] cand_at(l, w, h, q, s0, e0)
                &&& l[nbr(q[s0] as int, w, h, e0)->0] == v
                &&& bd == sq_dist(w, q[0] as int, nbr(q[s0] as int, w, h, e0)->0)
                &&& forall|s2: int, e2: int|
                    #[trigger] cand_at(l, w, h, q, s2, e2) && before(s2, e2, s0, e0) ==> bd < sq_dist(
                        w,
                        q[0] as int,
                        nbr(q[s2] as int, w, h, e2)->0,
                    )
            };
        assert forall|s2: int, e2: int| #[trigger] cand_at(l, w, h, q, s2, e2) implies sq_dist(
            w,
            q[0] as int,
            nbr(q[s0] as int, w, h, e0)->0,
        ) <= sq_dist(w, q[0] as int, nbr(q[s2] as int, w, h, e2)->0) by {
            assert(before(s2, e2, q.len() as int, 0));
        }
    }
}

proof fn lemma_first_met_same(l0: Seq<u32>, l1: Seq<u32>, w: int, h: int, q: Seq<usize>, v: u32)
    requires
        l0.len() == l1.len(),
        l0.len() == w * h,
        forall|j: int| 0 <= j < l0.len() && !cells_of(q).contains(j) ==> l0[j] == l1[j],
        first_met(l1, w, h, q, v),
    ensures
        first_met(l0, w, h, q, v),
{
    assert forall|s: int, e: int| #[trigger] cand_at(l0, w, h, q, s, e) == cand_at(l1, w, h, q, s, e) by {
        if 0 <= s < q.len() && 0 <= e < 4 {
            if let Some(k) = nbr(q[s] as int, w, h, e) {
                if 0 <= k < w * h && !cells_of(q).contains(k) {
                    assert(l0[k] == l1[k]);
                }
            }
        }
    }
    let (s0, e0) = choose|s0: int, e0: int|
        {
            let k = nbr(q[s0] as int, w, h, e0)->0;
            &&& #[trigger] cand_at(l1, w, h, q, s0, e0)
            &&& l1[k] == v
            &&& forall|s2: int, e2: int|
                #[trigger] cand_at(l1, w, h, q, s2, e2) ==> sq_dist(w, q[0] as int, k) <= sq_dist(
                    w,
                    q[0] as int,
                    nbr(q[s2] as int, w, h, e2)->0,
                )
            &&& forall|s2: int, e2: int|
                #[trigger] cand_at(l1, w, h, q, s2, e2) && before(s2, e2, s0, e0) ==> sq_dist(w, q[0] as int, k)
                    < sq_dist(w, q[0] as int, nbr(q[s2] as int, w, h, e2)->0)
        };
    assert(cand_at(l0, w, h, q, s0, e0));
    assert(l0[nbr(q[s0] as int, w, h, e0)->0] == v);
}

/// The label of the labelled cell outside the region listed in `queue` (the
/// cells labelled `cl` in `l`) that borders it nearest to its first cell;
/// among equally near ones, the first met going through `queue` in order and
/// each cell's neighbours right, left, below, above.
fn nearest_label(l: &Vec<u32>, queue: &Vec<usize>, width: usize, height: usize, cl: u32) -> (best: Option<u32>)
    requires
        width >= 1,
        height >= 1,
        width * height <= u32::MAX,
        l@.len() == width * height,
        queue@.len() >= 1,
        forall|t: int| 0 <= t < queue@.len() ==> #[trigger] queue@[t] < width * height,
        forall|j: int| 0 <= j < width * height ==> (l@[j] == cl <==> #[trigger] cells_of(queue@).contains(j)),
    ensures
        merge_target(l@, width as int, height as int, cells_of(queue@), queue@[0] as int, best),
        best matches Some(v) ==> first_met(l@, width as int, height as int, queue@, v),
{
    let ghost (w, h) = (width as int, height as int);
    let ghost r = cells_of(queue@);
    let ghost q = queue@;
    let q0 = queue[0];
    proof {
        assert(q0 / width < height) by (nonlinear_arith)
            requires
                q0 < width * height,
                width >= 1,
        ;
    }
    let cx = q0 % width;
    let cy = q0 / width;
    let mut best: Option<u32> = None;
    let mut best_dist: u64 = 0;
    let mut t: usize = 0;
    while t < queue.len()
        invariant
            w == width,
            h == height,
            w >= 1,
            h >= 1,
            w * h <= u32::MAX,
            l@.len() == w * h,
            q == queue@,
            r == cells_of(q),
            q.len() >= 1,
            q0 == q[0],
            cx == q0 % width,
            cy == q0 / width,
            cy < height,
            forall|s: int| 0 <= s < q.len() ==> #[trigger] q[s] < w * h,
            forall|j: int| 0 <= j < w * h ==> (l@[j] == cl <==> #[trigger] r.contains(j)),
            t <= q.len(),
            best_ok(l@, w, h, r, q, t as int, 0, q0 as int, best, best_dist),
            first_ok(l@, w, h, q, t as int, 0, best, best_dist),
        decreases q.len() - t,
    {
        let idx = queue[t];
        let px = idx % width;
        let py = idx / width;
        proof {
            vstd::arithmetic::div_mod::lemma_fundamental_div_mod(idx as int, w);
            assert(py < height) by (nonlinear_arith)
                requires
                    idx == width * py + px,
                    0 <= px < width,
                    idx < width * height,
                    width >= 1,
                    py >= 0,
            ;
            assert(nbr(idx as int, w, h, 0) == neighbor_of(px as int, py as int, w, h, 0));
        }
        let mut d: usize = 0;
        while d < 4
            invariant
                w == width,
                h == height,
                w >= 1,
                h >= 1,
                w * h <= u32::MAX,
                l@.len() == w * h,
                q == queue@,
                r == cells_of(q),
                q.len() >= 1,
                q0 == q[0],
                cx == q0 % width,
                cy == q0 / width,
                cy < height,
                forall|s: int| 0 <= s < q.len() ==> #[trigger] q[s] < w * h,
                forall|j: int| 0 <= j < w * h ==> (l@[j] == cl <==> #[trigger] r.contains(j)),
                t < q.len(),
                idx == q[t as int],
                px == idx % width,
                py == idx / width,
                px < width,
                py < height,
                d <= 4,
                best_ok(l@, w, h, r, q, t as int, d as int, q0 as int, best, best_dist),
                first_ok(l@, w, h, q, t as int, d as int, best, best_dist),
            decreases 4 - d,
        {
            let ghost (b0, bd0) = (best, best_dist);
            let cell = neighbor_cell(px, py, width, height, d);
            proof {
                assert(nbr(idx as int, w, h, d as int) == neighbor_of(px as int, py as int, w, h, d as int));
            }
            let mut found = false;
            let mut took = false;
            if let Some(ni) = cell {
                let v = l[ni];
                if v != u32::MAX && v != cl {
                    found = true;
                    let nx = ni % width;
                    let ny = ni / width;
                    proof {
                        assert(ny < height) by (nonlinear_arith)
                            requires
                                ny == ni / width,
                                ni < width * height,
                                width >= 1,
                        ;
                    }
                    let ddx: u64 = if cx >= nx {
                        (cx - nx) as u64
                    } else {
                        (nx - cx) as u64
                    };
                    let ddy: u64 = if cy >= ny {
                        (cy - ny) as u64
                    } else {
                        (ny - cy) as u64
                    };
                    proof {
                        lemma_dist_bound(ddx as int, ddy as int, w, h);
                        assert(ddx * ddx == (cx - nx) * (cx - nx)) by (nonlinear_arith)
                            requires
                                ddx == cx - nx || ddx == nx - cx,
                        ;
                        assert(ddy * ddy == (cy - ny) * (cy - ny)) by (nonlinear_arith)
                            requires
                                ddy == cy - ny || ddy == ny - cy,
                        ;
                        assert(0 <= ddx * ddx && 0 <= ddy * ddy) by (nonlinear_arith);
                    }
                    let dist = ddx * ddx + ddy * ddy;
                    proof {
                        assert(dist == sq_dist(w, q0 as int, ni as int));
                    }
                    let closer = match best {
                        None => true,
                        Some(_) => dist < best_dist,
                    };
                    if closer {
                        best = Some(v);
                        best_dist = dist;
                        took = true;
                    }
                }
            }
            proof {
                let ni = nbr(idx as int, w, h, d as int);
                if let Some(k) = ni {
                    lemma_nbr(idx as int, w, h, d as int);
                }
                assert(found == cand_at(l@, w, h, q, t as int, d as int));
                lemma_first_ok_step(l@, w, h, q, t as int, d as int, b0, bd0, best, best_dist, found, took);
                assert forall|k: int|
                    #[trigger] seen(l@, w, h, r, q, t as int, d + 1, k) == (seen(l@, w, h, r, q, t as int, d as int, k) || (
                    found && ni == Some(k))) by {
                    lemma_seen_step(l@, w, h, r, q, t as int, d as int, k);
                    if ni == Some(k) {
                        lemma_nbr(idx as int, w, h, d as int);
                    }
                }
                if took {
                    let k = ni->0;
                    assert(seen(l@, w, h, r, q, t as int, d + 1, k));
                    assert(best_dist == sq_dist(w, q0 as int, k));
                    assert forall|k2: int| #[trigger] seen(l@, w, h, r, q, t as int, d + 1, k2) implies best_dist
                        <= sq_dist(w, q0 as int, k2) by {
                        if k2 != k {
                            assert(seen(l@, w, h, r, q, t as int, d as int, k2));
                            if let Some(v0) = b0 {
                                let ko = choose|ko: int|
                                    {
                                        &&& #[trigger] seen(l@, w, h, r, q, t as int, d as int, ko)
                                        &&& l@[ko] == v0
                                        &&& bd0 == sq_dist(w, q0 as int, ko)
                                        &&& forall|k3: int| #[trigger] seen(l@, w, h, r, q, t as int, d as int, k3) ==> bd0 <= sq_dist(
                                            w,
                                            q0 as int,
                                            k3,
                                        )
                                    };
                                assert(bd0 <= sq_dist(w, q0 as int, k2));
                            }
                        }
                    }
                    assert(best_ok(l@, w, h, r, q, t as int, d + 1, q0 as int, best, best_dist));
                } else {
                    match b0 {
                        None => {
                            assert(!found);
                            assert(best_ok(l@, w, h, r, q, t as int, d + 1, q0 as int, best, best_dist));
                        },
                        Some(v0) => {
                            let ko = choose|ko: int|
                                {
                                    &&& #[trigger] seen(l@, w, h, r, q, t as int, d as int, ko)
                                    &&& l@[ko] == v0
                                    &&& bd0 == sq_dist(w, q0 as int, ko)
                                    &&& forall|k3: int| #[trigger] seen(l@, w, h, r, q, t as int, d as int, k3) ==> bd0 <= sq_dist(
                                        w,
                                        q0 as int,
                                        k3,
                                    )
                                };
                            assert(seen(l@, w, h, r, q, t as int, d + 1, ko));
                            assert forall|k2: int| #[trigger] seen(l@, w, h, r, q, t as int, d + 1, k2) implies best_dist
                                <= sq_dist(w, q0 as int, k2) by {
                                if !seen(l@, w, h, r, q, t as int, d as int, k2) {
                                    assert(found && ni == Some(k2));
                                }
                            }
                            assert(best_ok(l@, w, h, r, q, t as int, d + 1, q0 as int, best, best_dist));
                        },
                    }
                }
            }
            d = d + 1;
        }
        proof {
            assert forall|k: int| #[trigger] seen(l@, w, h, r, q, t as int + 1, 0, k) == seen(l@, w, h, r, q, t as int, 4, k) by {
                lemma_seen_row(l@, w, h, r, q, t as int, k);
            }
            lemma_first_ok_row(l@, w, h, q, t as int, best, best_dist);
            if let Some(v) = best {
                let k = choose|k: int|
                    {
                        &&& #[trigger] seen(l@, w, h, r, q, t as int, 4, k)
                        &&& l@[k] == v
                        &&& best_dist == sq_dist(w, q0 as int, k)
                        &&& forall|k2: int| #[trigger] seen(l@, w, h, r, q, t as int, 4, k2) ==> best_dist <= sq_dist(w, q0 as int, k2)
                    };
                assert(seen(l@, w, h, r, q, t as int + 1, 0, k));
            }
        }
        t = t + 1;
    }
    proof {
        lemma_first_ok_end(l@, w, h, q, best, best_dist);
        assert forall|k: int| #[trigger] borders(l@, w, h, r, k) == seen(l@, w, h, r, q, q.len() as int, 0, k) by {
            lemma_seen_all(l@, w, h, q, k);
        }
        if let Some(v) = best {
            let k = choose|k: int|
                {
                    &&& #[trigger] seen(l@, w, h, r, q, q.len() as int, 0, k)
                    &&& l@[k] == v
                    &&& best_dist == sq_dist(w, q0 as int, k)
                    &&& forall|k2: int| #[trigger] seen(l@, w, h, r, q, q.len() as int, 0, k2) ==> best_dist <= sq_dist(w, q0 as int, k2)
                };
            assert(borders(l@, w, h, r, k));
        }
    }
    best
}

/// Labels with `cl` the region of `labels` that holds the unlabelled cell
/// `start`, by breadth-first flood fill, and returns its cells in the order
/// they were reached, `start` first.
fn flood_region(
    labels: &Vec<u32>,
    new_labels: &mut Vec<u32>,
    start: usize,
    cl: u32,
    width: usize,
    height: usize,
) -> (queue: Vec<usize>)
    requires
        width >= 1,
        height >= 1,
        width * height <= u32::MAX,
        labels@.len() == width * height,
        old(new_labels)@.len() == width * height,
        start < width * height,
        old(new_labels)@[start as int] == u32::MAX,
        cl != u32::MAX,
        forall|j: int| 0 <= j < width * height ==> #[trigger] old(new_labels)@[j] == u32::MAX || old(new_labels)@[j] < cl,
        closed_under(labels@, old(new_labels)@, width as int, height as int),
    ensures
        queue@.len() >= 1,
        queue@[0] == start,
        forall|t: int| 0 <= t < queue@.len() ==> #[trigger] queue@[t] < width * height,
        is_region(labels@, width as int, height as int, start as int, cells_of(queue@)),
        bfs_order(width as int, height as int, start as int, queue@),
        cells_of(queue@).len() == queue@.len(),
        final(new_labels)@ == relabel(old(new_labels)@, cells_of(queue@), cl),
        closed_under(labels@, final(new_labels)@, width as int, height as int),
{
    let n = width * height;
    let ghost (w, h) = (width as int, height as int);
    let ghost orig = labels@;
    let ghost l_in = new_labels@;
    let mut queue: Vec<usize> = Vec::new();
    queue.push(start);
    proof {
        lemma_unset_set(new_labels@, start as int, cl);
    }
    new_labels.set(start, cl);
    let start_label = labels[start];
    proof {
        assert(fill_ok(orig, new_labels@, w, h, cl)) by {
            assert forall|j: int, d: int|
                0 <= j < w * h && 0 <= d < 4 && new_labels@[j] != u32::MAX && new_labels@[j] != cl && (
                #[trigger] nbr(j, w, h, d) matches Some(k) && orig[j] == orig[k]) implies new_labels@[nbr(
                    j,
                    w,
                    h,
                    d,
                )->0] == new_labels@[j] by {
                lemma_nbr(j, w, h, d);
                assert(l_in[j] != u32::MAX);
                assert(l_in[nbr(j, w, h, d)->0] == l_in[j]);
            }
        }
        assert(queue@.len() == 1 && queue@[0] == start);
        assert forall|j: int| 0 <= j < n && #[trigger] new_labels@[j] == cl implies exists|t: int|
            0 <= t < queue@.len() && queue@[t] == j by {
            assert(queue@[0] == j);
        }
    }
    let mut head: usize = 0;
    while head < queue.len()
        invariant
            w == width,
            h == height,
            w >= 1,
            h >= 1,
            n == w * h,
            n <= u32::MAX,
            cl != u32::MAX,
            orig == labels@,
            orig.len() == n,
            new_labels@.len() == n,
            l_in.len() == n,
            start < n,
            start_label == orig[start as int],
            queue@.len() >= 1,
            queue@[0] == start,
            head <= queue@.len(),
            queue@.no_duplicates(),
            grown_from(w, h, queue@),
            bfs_prefix(w, h, queue@, head as int, 0),
            forall|j: int| 0 <= j < n && new_labels@[j] != cl ==> #[trigger] new_labels@[j] == l_in[j],
            forall|j: int| 0 <= j < n ==> #[trigger] l_in[j] == u32::MAX || l_in[j] < cl,
            queue_ok(orig, new_labels@, queue@, n as int, cl, start_label),
            expanded(orig, new_labels@, queue@, head as int, w, h, cl, start_label),
            fill_ok(orig, new_labels@, w, h, cl),
        decreases unset_count(new_labels@) + queue@.len() - head,
    {
        let cur = queue[head];
        head = head + 1;
        let cx = cur % width;
        let cy = cur / width;
        proof {
            vstd::arithmetic::div_mod::lemma_fundamental_div_mod(cur as int, w);
            assert(cy < height) by (nonlinear_arith)
                requires
                    cur == width * cy + cx,
                    0 <= cx < width,
                    cur < width * height,
                    width >= 1,
                    cy >= 0,
            ;
            lemma_unset_nonneg(new_labels@);
        }
        let ghost m0 = unset_count(new_labels@) + queue@.len();
        let mut d: usize = 0;
        while d < 4
            invariant
                w == width,
                h == height,
                w >= 1,
                h >= 1,
                n == w * h,
                n <= u32::MAX,
                cl != u32::MAX,
                orig == labels@,
                orig.len() == n,
                new_labels@.len() == n,
                l_in.len() == n,
                start_label == orig[start as int],
                queue@.len() >= 1,
                queue@[0] == start,
                1 <= head <= queue@.len(),
                cur == queue@[head - 1],
                cur < n,
                cx == cur % width,
                cy == cur / width,
                cx < width,
                cy < height,
                d <= 4,
                queue@.no_duplicates(),
                grown_from(w, h, queue@),
                bfs_prefix(w, h, queue@, head - 1, d as int),
                forall|j: int| 0 <= j < n && new_labels@[j] != cl ==> #[trigger] new_labels@[j] == l_in[j],
                forall|j: int| 0 <= j < n ==> #[trigger] l_in[j] == u32::MAX || l_in[j] < cl,
                queue_ok(orig, new_labels@, queue@, n as int, cl, start_label),
                expanded(orig, new_labels@, queue@, head - 1, w, h, cl, start_label),
                forall|e: int|
                    0 <= e < d ==> (#[trigger] nbr(cur as int, w, h, e) matches Some(k) ==> (orig[k] == start_label
                        ==> new_labels@[k] == cl)),
                fill_ok(orig, new_labels@, w, h, cl),
                unset_count(new_labels@) + queue@.len() == m0,
                unset_count(new_labels@) >= 0,
            decreases 4 - d,
        {
            let ghost l_before = new_labels@;
            let ghost q_before = queue@;
            let cell = neighbor_cell(cx, cy, width, height, d);
            proof {
                lemma_nbr(cur as int, w, h, d as int);
                assert(nbr(cur as int, w, h, d as int) == neighbor_of(cx as int, cy as int, w, h, d as int));
                assert(queue@[head - 1] < n);
                assert(new_labels@[queue@[head - 1] as int] == cl);
                assert(orig[queue@[head - 1] as int] == start_label);
            }
            if let Some(ni) = cell {
                if new_labels[ni] == u32::MAX && labels[ni] == start_label {
                    let ghost l0 = new_labels@;
                    let ghost q0 = queue@;
                    proof {
                        lemma_unset_set(new_labels@, ni as int, cl);
                    }
                    new_labels.set(ni, cl);
                    queue.push(ni);
                    proof {
                        assert forall|j: int| 0 <= j < n && #[trigger] new_labels@[j] == cl implies exists|t: int|
                            0 <= t < queue@.len() && queue@[t] == j by {
                            if j == ni {
                                assert(queue@[queue@.len() - 1] == j);
                            } else {
                                assert(l0[j] == cl);
                                let t = choose|t: int| 0 <= t < q0.len() && q0[t] == j;
                                assert(queue@[t] == j);
                            }
                        }
                        assert forall|t: int| 0 <= t < queue@.len() implies #[trigger] new_labels@[queue@[t] as int] == cl
                            && orig[queue@[t] as int] == start_label by {
                            if t < q0.len() {
                                assert(queue@[t] == q0[t]);
                                assert(l0[q0[t] as int] == cl && orig[q0[t] as int] == start_label);
                            } else {
                                assert(queue@[t] == ni);
                            }
                        }
                        assert(queue@.no_duplicates()) by {
                            assert forall|a: int, b: int| 0 <= a < queue@.len() && 0 <= b < queue@.len() && a != b implies queue@[a]
                                != queue@[b] by {
                                if a < q0.len() && b < q0.len() {
                                    assert(q0[a] != q0[b]);
                                } else if a < q0.len() {
                                    assert(l0[q0[a] as int] == cl);
                                } else if b < q0.len() {
                                    assert(l0[q0[b] as int] == cl);
                                }
                            }
                        }
                        let n0 = q0.len() as int;
                        assert(found_from(w, h, queue@, n0, head - 1, d as int)) by {
                            assert(queue@[head - 1] == cur && queue@[n0] == ni);
                            assert forall|s2: int, e2: int| 0 <= s2 < head - 1 && 0 <= e2 < 4 implies #[trigger] nbr(
                                queue@[s2] as int,
                                w,
                                h,
                                e2,
                            ) != Some(queue@[n0] as int) by {
                                assert(queue@[s2] == q0[s2]);
                                assert(q0[s2] < n);
                                lemma_nbr(q0[s2] as int, w, h, e2);
                                if nbr(q0[s2] as int, w, h, e2) == Some(ni as int) {
                                    assert(l0[ni as int] == cl);
                                }
                            }
                        }
                        lemma_bfs_push(w, h, q0, ni, head - 1, d as int);
                        assert(grown_from(w, h, queue@)) by {
                            assert forall|t: int| #![trigger queue@[t]] 0 < t < queue@.len() implies exists|p: int, e: int|
                                #![trigger nbr(queue@[p] as int, w, h, e)]
                                0 <= p < t && 0 <= e < 4 && nbr(queue@[p] as int, w, h, e) == Some(queue@[t] as int) by {
                                if t < q0.len() {
                                    assert(queue@[t] == q0[t]);
                                    let (p, e) = choose|p: int, e: int|
                                        0 <= p < t && 0 <= e < 4 && #[trigger] nbr(q0[p] as int, w, h, e) == Some(q0[t] as int);
                                    assert(queue@[p] == q0[p]);
                                    assert(nbr(queue@[p] as int, w, h, e) == Some(queue@[t] as int));
                                } else {
                                    assert(queue@[head - 1] == cur);
                                    assert(nbr(queue@[head - 1] as int, w, h, d as int) == Some(queue@[t] as int));
                                }
                            }
                        }
                        assert(fill_ok(orig, new_labels@, w, h, cl)) by {
                            assert forall|j: int, e: int|
                                0 <= j < w * h && 0 <= e < 4 && new_labels@[j] != u32::MAX && new_labels@[j] != cl && (
                                #[trigger] nbr(j, w, h, e) matches Some(k) && orig[j] == orig[k]) implies new_labels@[nbr(
                                    j,
                                    w,
                                    h,
                                    e,
                                )->0] == new_labels@[j] by {
                                lemma_nbr(j, w, h, e);
                                assert(l0[j] != u32::MAX && l0[j] != cl);
                                assert(l0[nbr(j, w, h, e)->0] == l0[j]);
                            }
                        }
                        assert forall|t: int| 0 <= t < queue@.len() implies #[trigger] queue@[t] < n by {
                            if t < q0.len() {
                                assert(queue@[t] == q0[t]);
                            }
                        }
                        assert(expanded(orig, new_labels@, queue@, head - 1, w, h, cl, start_label)) by {
                            assert forall|t: int, e: int|
                                0 <= t < head - 1 && 0 <= e < 4 implies (#[trigger] nbr(queue@[t] as int, w, h, e) matches Some(k)
                                    ==> (orig[k] == start_label ==> new_labels@[k] == cl)) by {
                                assert(queue@[t] == q0[t]);
                                assert(q0[t] < n);
                                lemma_nbr(q0[t] as int, w, h, e);
                                if let Some(k) = nbr(q0[t] as int, w, h, e) {
                                    if orig[k] == start_label {
                                        assert(l0[k] == cl);
                                    }
                                }
                            }
                        }
                    }
                } else {
                    proof {
                        if labels[ni as int] == start_label {
                            let k = ni as int;
                            let lk = new_labels@[k];
                            if lk != cl {
                                let e = choose|e: int| 0 <= e < 4 && #[trigger] nbr(k, w, h, e) == Some(cur as int);
                                assert(nbr(k, w, h, e) == Some(cur as int));
                                assert(orig[k] == orig[cur as int]);
                                assert(new_labels@[nbr(k, w, h, e)->0] == new_labels@[k]);
                                assert(false);
                            }
                        }
                    }
                }
            }
            proof {
                if queue@ == q_before {
                    lemma_bfs_next(w, h, queue@, head - 1, d as int, head - 1, d + 1);
                }
                assert forall|j: int| 0 <= j < n && l_before[j] == cl implies new_labels@[j] == cl by {}
                assert forall|e: int| 0 <= e < d + 1 implies (#[trigger] nbr(cur as int, w, h, e) matches Some(k) ==> (
                orig[k] == start_label ==> new_labels@[k] == cl)) by {
                    lemma_nbr(cur as int, w, h, e);
                    if e < d {
                        if let Some(k) = nbr(cur as int, w, h, e) {
                            if orig[k] == start_label {
                                assert(l_before[k] == cl);
                            }
                        }
                    }
                }
            }
            d = d + 1;
        }
        proof {
            lemma_bfs_next(w, h, queue@, head - 1, 4, head as int, 0);
            assert(expanded(orig, new_labels@, queue@, head as int, w, h, cl, start_label)) by {
                assert forall|t: int, e: int|
                    0 <= t < head && 0 <= e < 4 implies (#[trigger] nbr(queue@[t] as int, w, h, e) matches Some(k)
                        ==> (orig[k] == start_label ==> new_labels@[k] == cl)) by {
                    if t == head - 1 {
                        assert(nbr(cur as int, w, h, e) == nbr(queue@[t] as int, w, h, e));
                    }
                }
            }
        }
    }
    proof {
        let r = cells_of(queue@);
        lemma_cells_len(queue@);
        assert(bfs_order(w, h, start as int, queue@));
        assert forall|c: int| #[trigger] r.contains(c) <==> (0 <= c < n && new_labels@[c] == cl) by {
            if r.contains(c) {
                let t = choose|t: int| 0 <= t < queue@.len() && queue@[t] as int == c;
                assert(queue@[t] < n);
            }
            if 0 <= c < n && new_labels@[c] == cl {
                let t = choose|t: int| 0 <= t < queue@.len() && queue@[t] == c;
                assert(queue@[t] as int == c);
            }
        }
        assert(r.contains(start as int)) by {
            assert(queue@[0] as int == start);
        }
        assert(closed_set(orig, w, h, r)) by {
            assert forall|c: int, d: int|
                r.contains(c) && 0 <= c < w * h && 0 <= d < 4 && (#[trigger] nbr(c, w, h, d) matches Some(k) && orig[k]
                    == orig[c]) implies r.contains(nbr(c, w, h, d)->0) by {
                let t = choose|t: int| 0 <= t < queue@.len() && queue@[t] as int == c;
                assert(orig[queue@[t] as int] == start_label);
                assert(nbr(queue@[t] as int, w, h, d) == nbr(c, w, h, d));
                lemma_nbr(c, w, h, d);
                let k = nbr(c, w, h, d)->0;
                assert(new_labels@[k] == cl);
            }
        }
        assert forall|s: Set<int>| #[trigger] closed_set(orig, w, h, s) && s.contains(start as int) implies r.subset_of(s) by {
            assert forall|c: int| r.contains(c) implies s.contains(c) by {
                let t = choose|t: int| 0 <= t < queue@.len() && queue@[t] as int == c;
                lemma_grown_within(orig, w, h, queue@, start_label, s, t);
            }
        }
        assert(new_labels@ =~= relabel(l_in, r, cl)) by {
            assert forall|j: int| 0 <= j < n implies new_labels@[j] == relabel(l_in, r, cl)[j] by {
                if new_labels@[j] != cl {
                    assert(!r.contains(j));
                }
            }
        }
        assert(closed_under(orig, new_labels@, w, h)) by {
            assert forall|j: int, d: int|
                0 <= j < w * h && 0 <= d < 4 && new_labels@[j] != u32::MAX && (#[trigger] nbr(j, w, h, d) matches Some(k)
                    && orig[j] == orig[k]) implies new_labels@[nbr(j, w, h, d)->0] == new_labels@[j] by {
                if new_labels@[j] == cl {
                    let t = choose|t: int| 0 <= t < queue@.len() && queue@[t] == j;
                    assert(nbr(queue@[t] as int, w, h, d) == nbr(j, w, h, d));
                }
            }
        }
    }
    queue
}

proof fn lemma_step_region(
    orig: Seq<u32>,
    w: int,
    h: int,
    min_size: int,
    i: int,
    a: (Seq<u32>, u32),
    b: (Seq<u32>, u32),
    q: Seq<usize>,
    m: Option<u32>,
)
    requires
        a.0[i] == u32::MAX,
        region_step(orig, w, h, min_size, i, a, b, q, m),
    ensures
        conn_step(orig, w, h, min_size, i, a, b),
{
}

/// Relabels the `w × h` label map so that every region is 4-connected:
/// each connected run of equal labels, found by flood fill in row-major order
/// of its first cell, gets a fresh label; a run smaller than `min_size` takes
/// instead the label of the adjacent, already labelled cell nearest (by
/// squared distance) to the run's first cell, when there is one. The pass is
/// [`conn_run`]; among equally near labelled cells, the one met first going
/// through the run in breadth-first order gives the label.
pub fn enforce_connectivity(labels: &mut Vec<u32>, width: usize, height: usize, min_size: usize)
    requires
        width * height <= u32::MAX,
        old(labels)@.len() == width * height,
    ensures
        final(labels)@.len() == width * height,
        forall|i: int| 0 <= i < width * height ==> #[trigger] final(labels)@[i] < width * height,
        forall|j: int, d: int|
            0 <= j < width * height && 0 <= d < 4 && (#[trigger] nbr(j, width as int, height as int, d) matches Some(
                k,
            ) && old(labels)@[j] == old(labels)@[k]) ==> final(labels)@[nbr(j, width as int, height as int, d)->0]
                == final(labels)@[j],
        exists|states: Seq<(Seq<u32>, u32)>|
            conn_run(old(labels)@, width as int, height as int, min_size as int, states) && final(labels)@
                == #[trigger] states.last().0,
{
    let ghost orig = labels@;
    if width == 0 || height == 0 {
        proof {
            let states = seq![(Seq::new((width * height) as nat, |j: int| u32::MAX), 0u32)];
            assert(width * height == 0) by (nonlinear_arith)
                requires
                    width == 0 || height == 0,
            ;
            assert(labels@ =~= states.last().0);
            assert(conn_run(orig, width as int, height as int, min_size as int, states));
        }
        return ;
    }
    let n = width * height;
    let ghost (w, h) = (width as int, height as int);
    let mut new_labels: Vec<u32> = Vec::with_capacity(n);
    let mut t: usize = 0;
    while t < n
        invariant
            t <= n,
            new_labels@.len() == t,
            forall|m: int| 0 <= m < t ==> #[trigger] new_labels@[m] == u32::MAX,
        decreases n - t,
    {
        new_labels.push(u32::MAX);
        t = t + 1;
    }
    let mut label_counter: u32 = 0;
    let ghost init = (Seq::new(n as nat, |j: int| u32::MAX), 0u32);
    proof {
        assert(new_labels@ =~= init.0);
    }
    let ghost mut states: Seq<(Seq<u32>, u32)> = seq![init];
    let mut i: usize = 0;
    while i < n
        invariant
            w == width,
            h == height,
            w >= 1,
            h >= 1,
            n == w * h,
            n <= u32::MAX,
            orig == labels@,
            orig.len() == n,
            new_labels@.len() == n,
            i <= n,
            label_counter <= i,
            forall|j: int| 0 <= j < n ==> #[trigger] new_labels@[j] == u32::MAX || new_labels@[j] < label_counter,
            forall|j: int| 0 <= j < i ==> #[trigger] new_labels@[j] != u32::MAX,
            closed_under(orig, new_labels@, w, h),
            states.len() == i + 1,
            states[0] == init,
            init == (Seq::new(n as nat, |j: int| u32::MAX), 0u32),
            forall|k: int| 0 <= k < i ==> conn_step(orig, w, h, min_size as int, k, #[trigger] states[k], states[k + 1]),
            states[i as int] == (new_labels@, label_counter),
        decreases n - i,
    {
        let ghost a = (new_labels@, label_counter);
        if new_labels[i] == u32::MAX {
            let cl = label_counter;
            let queue = flood_region(labels, &mut new_labels, i, cl, width, height);
            let ghost r = cells_of(queue@);
            let ghost l1 = new_labels@;
            let ghost mut m: Option<u32> = None;
            proof {
                assert forall|j: int| 0 <= j < n implies (l1[j] == cl <==> #[trigger] r.contains(j)) by {
                    if !r.contains(j) {
                        assert(l1[j] == a.0[j]);
                    }
                }
            }
            let mut merged = false;
            if queue.len() < min_size {
                let best = nearest_label(&new_labels, &queue, width, height, cl);
                proof {
                    m = best;
                    lemma_merge_same(a.0, l1, w, h, r, i as int, best);
                    if let Some(v) = best {
                        lemma_first_met_same(a.0, l1, w, h, queue@, v);
                    }
                }
                if let Some(adj_label) = best {
                    proof {
                        let k = choose|k: int|
                            {
                                &&& #[trigger] borders(l1, w, h, r, k)
                                &&& l1[k] == adj_label
                                &&& forall|k2: int| #[trigger] borders(l1, w, h, r, k2) ==> sq_dist(w, i as int, k) <= sq_dist(
                                    w,
                                    i as int,
                                    k2,
                                )
                            };
                        assert(l1[k] == a.0[k]);
                        assert(adj_label < cl);
                    }
                    let mut t: usize = 0;
                    while t < queue.len()
                        invariant
                            n == w * h,
                            new_labels@.len() == n,
                            l1.len() == n,
                            t <= queue@.len(),
                            forall|s: int| 0 <= s < queue@.len() ==> #[trigger] queue@[s] < n,
                            forall|s: int| 0 <= s < queue@.len() ==> #[trigger] l1[queue@[s] as int] == cl,
                            forall|j: int|
                                0 <= j < n ==> #[trigger] new_labels@[j] == if l1[j] == cl && exists|s: int|
                                    0 <= s < t && queue@[s] == j {
                                    adj_label
                                } else {
                                    l1[j]
                                },
                        decreases queue@.len() - t,
                    {
                        let idx = queue[t];
                        new_labels.set(idx, adj_label);
                        proof {
                            assert forall|j: int| 0 <= j < n implies #[trigger] new_labels@[j] == if l1[j] == cl && exists|s: int|
                                0 <= s < t + 1 && queue@[s] == j {
                                adj_label
                            } else {
                                l1[j]
                            } by {
                                if j == idx {
                                    assert(queue@[t as int] == j);
                                }
                            }
                        }
                        t = t + 1;
                    }
                    proof {
                        assert forall|j: int| 0 <= j < n implies #[trigger] new_labels@[j] == if l1[j] == cl {
                            adj_label
                        } else {
                            l1[j]
                        } by {
                            if l1[j] == cl {
                                assert(r.contains(j));
                                let s = choose|s: int| 0 <= s < queue@.len() && queue@[s] as int == j;
                                assert(queue@[s] == j);
                            }
                        }
                        assert(closed_under(orig, new_labels@, w, h)) by {
                            assert forall|j: int, d: int|
                                0 <= j < w * h && 0 <= d < 4 && new_labels@[j] != u32::MAX && (#[trigger] nbr(j, w, h, d) matches Some(
                                    k,
                                ) && orig[j] == orig[k]) implies new_labels@[nbr(j, w, h, d)->0] == new_labels@[j] by {
                                lemma_nbr(j, w, h, d);
                                let k = nbr(j, w, h, d)->0;
                                assert(new_labels@[k] == if l1[k] == cl { adj_label } else { l1[k] });
                                assert(new_labels@[j] == if l1[j] == cl { adj_label } else { l1[j] });
                            }
                        }
                        assert(new_labels@ =~= relabel(a.0, r, adj_label));
                    }
                    merged = true;
                }
            }
            if !merged {
                label_counter = label_counter + 1;
            }
            proof {
                let v = if merged { m->0 } else { cl };
                assert(new_labels@ =~= relabel(a.0, r, v));
                assert(r.len() >= min_size ==> m is None);
                lemma_step_region(orig, w, h, min_size as int, i as int, a, (new_labels@, label_counter), queue@, m);
                assert forall|j: int| 0 <= j < i + 1 implies #[trigger] new_labels@[j] != u32::MAX by {
                    if j == i {
                        assert(r.contains(i as int));
                    } else if !r.contains(j) {
                        assert(a.0[j] != u32::MAX);
                    }
                }
                assert forall|j: int| 0 <= j < n implies #[trigger] new_labels@[j] == u32::MAX || new_labels@[j] < label_counter by {
                    if !r.contains(j) {
                        assert(new_labels@[j] == a.0[j]);
                    }
                }
            }
        } else {
            proof {
                assert(conn_step(orig, w, h, min_size as int, i as int, a, a));
            }
        }
        proof {
            let s0 = states;
            states = states.push((new_labels@, label_counter));
            assert forall|k: int| 0 <= k < i + 1 implies conn_step(orig, w, h, min_size as int, k, #[trigger] states[k], states[k + 1]) by {
                if k < i {
                    assert(states[k] == s0[k] && states[k + 1] == s0[k + 1]);
                } else {
                    assert(states[k] == a);
                }
            }
        }
        i = i + 1;
    }
    proof {
        assert(conn_run(orig, w, h, min_size as int, states));
        assert(states.last().0 == new_labels@);
        assert forall|j: int, d: int|
            0 <= j < w * h && 0 <= d < 4 && (#[trigger] nbr(j, w, h, d) matches Some(k) && orig[j] == orig[k]) implies new_labels@[nbr(
                j,
                w,
                h,
                d,
            )->0] == new_labels@[j] by {
            assert(new_labels@[j] != u32::MAX);
        }
    }
    *labels = new_labels;
}

} // verus!
