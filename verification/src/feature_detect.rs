use vstd::prelude::*;
use vstd::arithmetic::div_mod::{
    lemma_fundamental_div_mod, lemma_fundamental_div_mod_converse, lemma_div_is_ordered,
    lemma_mod_bound,
};
use vstd::arithmetic::mul::{lemma_mul_inequality, lemma_mul_upper_bound};
use crate::grayimg::{GrayBuffer, gray_dims, gray_pixels, gray_dimensions, gray_new, gray_put};
use crate::kernel::{
    Kernel, SobelDirection, sobel_weights, conv_at, lemma_conv_prefix_bound,
    lemma_sobel_weights_bounded,
};
use crate::mathq::{
    mag_spec, orient_udeg_spec, magnitude_q, orient_udeg, sqrt_floor, lemma_sqrt_props,
    lemma_sqrt_floor_below, lemma_mul_div_le, lemma_sqrt_floor_is, lemma_sqrt_floor_at_least,
    isqrt,
};

verus! {

/// The horizontal-kernel gradient response at `(x, y)`, in millionths.
pub open spec fn grad_x_at(px: Seq<u8>, w: int, h: int, x: int, y: int) -> int {
    conv_at(px, w, h, 3, 3, sobel_weights(SobelDirection::Horizontal), x, y)
}

/// The vertical-kernel gradient response at `(x, y)`, in millionths.
pub open spec fn grad_y_at(px: Seq<u8>, w: int, h: int, x: int, y: int) -> int {
    conv_at(px, w, h, 3, 3, sobel_weights(SobelDirection::Vertical), x, y)
}

/// The gradient magnitude at `(x, y)`, in millionths.
pub open spec fn mag_at(px: Seq<u8>, w: int, h: int, x: int, y: int) -> int {
    mag_spec(grad_y_at(px, w, h, x, y), grad_x_at(px, w, h, x, y))
}

/// The gradient orientation at `(x, y)`, folded into the half circle,
/// in micro-degrees.
pub open spec fn ang_at(px: Seq<u8>, w: int, h: int, x: int, y: int) -> int {
    orient_udeg_spec(grad_y_at(px, w, h, x, y), grad_x_at(px, w, h, x, y))
}

pub proof fn lemma_grad_bounds(px: Seq<u8>, w: int, h: int, x: int, y: int)
    ensures
        -4_590_000_000 <= grad_x_at(px, w, h, x, y) <= 4_590_000_000,
        -4_590_000_000 <= grad_y_at(px, w, h, x, y) <= 4_590_000_000,
{
    lemma_sobel_weights_bounded(SobelDirection::Horizontal);
    lemma_sobel_weights_bounded(SobelDirection::Vertical);
    lemma_conv_prefix_bound(
        px, w, h, 3, 3, sobel_weights(SobelDirection::Horizontal), x, y, 9, 2_000_000,
    );
    lemma_conv_prefix_bound(
        px, w, h, 3, 3, sobel_weights(SobelDirection::Vertical), x, y, 9, 2_000_000,
    );
}

pub proof fn lemma_polar_bounds(px: Seq<u8>, w: int, h: int, x: int, y: int)
    ensures
        0 <= mag_at(px, w, h, x, y) <= 7_100_000_000,
        0 <= ang_at(px, w, h, x, y) < 180_000_000,
{
    lemma_grad_bounds(px, w, h, x, y);
    let gx = grad_x_at(px, w, h, x, y);
    let gy = grad_y_at(px, w, h, x, y);
    let n = gx * gx + gy * gy;
    assert(0 <= n && n < 7_100_000_000int * 7_100_000_000int) by (nonlinear_arith)
        requires
            -4_590_000_000 <= gx <= 4_590_000_000,
            -4_590_000_000 <= gy <= 4_590_000_000,
            n == gx * gx + gy * gy,
    ;
    lemma_sqrt_props(n);
    lemma_sqrt_floor_below(n, 7_100_000_000int);
    lemma_mod_bound(crate::mathq::atan2_udeg_spec(gy, gx), 180_000_000int);
}

/// `0 <= y*w + x < w*h`, and the row-major index decomposes back.
proof fn lemma_row_major(w: int, h: int, x: int, y: int)
    requires
        0 <= x < w,
        0 <= y < h,
    ensures
        0 <= y * w + x,
        y * w + x < w * h,
        (y * w + x) % w == x,
        (y * w + x) / w == y,
{
    lemma_fundamental_div_mod_converse(y * w + x, w, y, x);
    assert(0 <= y * w + x && y * w + x < w * h) by (nonlinear_arith)
        requires
            0 <= x < w,
            0 <= y < h,
    ;
}

/// The per-pixel gradient field: for every pixel, row-major, the pair
/// of its magnitude (millionths) and its folded orientation
/// (micro-degrees).
#[verifier::loop_isolation(false)]
pub fn gradient_field(input: &GrayBuffer) -> (r: Vec<(u64, u64)>)
    requires
        (gray_dims(*input).0 as int) * (gray_dims(*input).1 as int) <= 4294967295,
    ensures
        r@.len() == (gray_dims(*input).0 as int) * (gray_dims(*input).1 as int),
        forall|i: int|
            0 <= i < r@.len() ==> {
                let w = gray_dims(*input).0 as int;
                let h = gray_dims(*input).1 as int;
                let px = gray_pixels(*input);
                &&& (#[trigger] r@[i]).0 as int == mag_at(px, w, h, i % w, i / w)
                &&& r@[i].1 as int == ang_at(px, w, h, i % w, i / w)
                &&& r@[i].0 <= 7_100_000_000
                &&& r@[i].1 < 180_000_000
            },
{
    let (w, h) = gray_dimensions(input);
    let kern_x = Kernel::sobel(SobelDirection::Horizontal);
    let kern_y = Kernel::sobel(SobelDirection::Vertical);
    let ghost px = gray_pixels(*input);
    let mut field: Vec<(u64, u64)> = Vec::new();
    let mut y: u32 = 0;
    while y < h
        invariant
            y <= h,
            field@.len() == (y as int) * (w as int),
            forall|i: int|
                0 <= i < field@.len() ==> {
                    &&& (#[trigger] field@[i]).0 as int == mag_at(
                        px, w as int, h as int, i % (w as int), i / (w as int),
                    )
                    &&& field@[i].1 as int == ang_at(
                        px, w as int, h as int, i % (w as int), i / (w as int),
                    )
                    &&& field@[i].0 <= 7_100_000_000
                    &&& field@[i].1 < 180_000_000
                },
        decreases h - y,
    {
        let mut x: u32 = 0;
        while x < w
            invariant
                x <= w,
                y < h,
                field@.len() == (y as int) * (w as int) + x as int,
                forall|i: int|
                    0 <= i < field@.len() ==> {
                        &&& (#[trigger] field@[i]).0 as int == mag_at(
                            px, w as int, h as int, i % (w as int), i / (w as int),
                        )
                        &&& field@[i].1 as int == ang_at(
                            px, w as int, h as int, i % (w as int), i / (w as int),
                        )
                        &&& field@[i].0 <= 7_100_000_000
                        &&& field@[i].1 < 180_000_000
                    },
            decreases w - x,
        {
            let gx = kern_x.apply_kernel_on_pixel(input, x, y);
            let gy = kern_y.apply_kernel_on_pixel(input, x, y);
            proof {
                lemma_grad_bounds(px, w as int, h as int, x as int, y as int);
                lemma_polar_bounds(px, w as int, h as int, x as int, y as int);
                lemma_row_major(w as int, h as int, x as int, y as int);
                assert((y as int) * (w as int) + (x as int) + 1 <= (w as int) * (h as int))
                    by (nonlinear_arith)
                    requires
                        0 <= (x as int) && (x as int) < (w as int),
                        0 <= (y as int) && (y as int) < (h as int),
                ;
            }
            let m = magnitude_q(gy, gx);
            let a = orient_udeg(gy, gx);
            field.push((m, a));
            x = x + 1;
        }
        proof {
            assert((y as int) * (w as int) + (w as int) == ((y as int) + 1) * (w as int))
                by (nonlinear_arith);
        }
        y = y + 1;
    }
    proof {
        assert((h as int) * (w as int) == (w as int) * (h as int)) by (nonlinear_arith);
    }
    field
}

/// The nine-bin histogram with every bin zero.
pub open spec fn hist0() -> Seq<int> {
    seq![0int, 0int, 0int, 0int, 0int, 0int, 0int, 0int, 0int]
}

/// The total weight held by a nine-bin histogram.
pub open spec fn sum9(s: Seq<int>) -> int {
    s[0] + s[1] + s[2] + s[3] + s[4] + s[5] + s[6] + s[7] + s[8]
}

/// One pixel's contribution: its magnitude split between the two bins
/// nearest its orientation, in proportion to the angular distance, with
/// both bin indexes wrapping around the circular histogram.
pub open spec fn distribute(hst: Seq<int>, mag: int, ang: int) -> Seq<int> {
    let bin = ang / 20_000_000;
    let share = (ang % 20_000_000) / 20;
    let w1 = (mag * share) / 1_000_000;
    let w0 = mag - w1;
    let b0 = bin % 9;
    let b1 = (bin + 1) % 9;
    let h1 = hst.update(b0, hst[b0] + w0);
    h1.update(b1, h1[b1] + w1)
}

pub open spec fn cell_px_x(cx: int, k: int) -> int {
    cx * 8 + k % 8
}

pub open spec fn cell_px_y(cy: int, k: int) -> int {
    cy * 8 + k / 8
}

/// The histogram of cell `(cx, cy)` after its first `n` pixels (row
/// major within the cell) have been distributed.
pub open spec fn cell_hist_prefix(px: Seq<u8>, w: int, h: int, cx: int, cy: int, n: int) -> Seq<
    int,
>
    decreases n,
{
    if n <= 0 {
        hist0()
    } else {
        distribute(
            cell_hist_prefix(px, w, h, cx, cy, n - 1),
            mag_at(px, w, h, cell_px_x(cx, n - 1), cell_px_y(cy, n - 1)),
            ang_at(px, w, h, cell_px_x(cx, n - 1), cell_px_y(cy, n - 1)),
        )
    }
}

/// The finished nine-bin histogram of cell `(cx, cy)`.
pub open spec fn cell_hist(px: Seq<u8>, w: int, h: int, cx: int, cy: int) -> Seq<int> {
    cell_hist_prefix(px, w, h, cx, cy, 64)
}

/// The sum of the gradient magnitudes of the first `n` pixels of cell
/// `(cx, cy)`.
pub open spec fn cell_mag_prefix(px: Seq<u8>, w: int, h: int, cx: int, cy: int, n: int) -> int
    decreases n,
{
    if n <= 0 {
        0
    } else {
        cell_mag_prefix(px, w, h, cx, cy, n - 1) + mag_at(
            px, w, h, cell_px_x(cx, n - 1), cell_px_y(cy, n - 1),
        )
    }
}

/// The sum of the gradient magnitudes over all pixels of cell `(cx, cy)`.
pub open spec fn cell_mag_sum(px: Seq<u8>, w: int, h: int, cx: int, cy: int) -> int {
    cell_mag_prefix(px, w, h, cx, cy, 64)
}

/// The integer view of an executable histogram row.
pub open spec fn hist_view(v: Vec<u64>) -> Seq<int> {
    v@.map_values(|u: u64| u as int)
}

proof fn lemma_hist_view_update(s: Vec<u64>, prev: Seq<u64>, i: int, v: u64)
    requires
        0 <= i < prev.len(),
        s@ == prev.update(i, v),
    ensures
        s@.map_values(|u: u64| u as int) == prev.map_values(|u: u64| u as int).update(
            i, v as int,
        ),
{
    assert(s@.map_values(|u: u64| u as int) =~= prev.map_values(|u: u64| u as int).update(
        i, v as int,
    ));
}

proof fn lemma_const_div_value(x: int, d: int, q: int, r: int)
    requires
        d != 0,
        0 <= r < d,
        x == q * d + r,
    ensures
        x / d == q,
        x % d == r,
{
    lemma_fundamental_div_mod_converse(x, d, q, r);
}

/// Splitting one magnitude between two bins: the bins stay within
/// bounds and the histogram gains exactly that magnitude.
pub proof fn lemma_distribute_props(hst: Seq<int>, mag: int, ang: int, cap: int)
    requires
        hst.len() == 9,
        0 <= mag,
        0 <= ang < 180_000_000,
        0 <= cap,
        forall|j: int| 0 <= j < 9 ==> 0 <= #[trigger] hst[j] <= cap,
    ensures
        distribute(hst, mag, ang).len() == 9,
        forall|j: int| 0 <= j < 9 ==> 0 <= #[trigger] distribute(hst, mag, ang)[j] <= cap + mag,
        sum9(distribute(hst, mag, ang)) == sum9(hst) + mag,
{
    let bin = ang / 20_000_000;
    let share = (ang % 20_000_000) / 20;
    let w1 = (mag * share) / 1_000_000;
    lemma_div_is_ordered(0, ang, 20_000_000);
    lemma_div_is_ordered(ang, 179_999_999, 20_000_000);
    lemma_const_div_value(179_999_999, 20_000_000, 8, 19_999_999);
    assert(0 <= bin <= 8);
    lemma_mod_bound(ang, 20_000_000);
    lemma_div_is_ordered(0, ang % 20_000_000, 20);
    lemma_div_is_ordered(ang % 20_000_000, 19_999_999, 20);
    lemma_const_div_value(19_999_999, 20, 999_999, 19);
    assert(0 <= share <= 999_999);
    assert(mag * share == share * mag) by (nonlinear_arith);
    lemma_mul_div_le(share, mag, 1_000_000);
    assert(0 <= w1 <= mag);
    lemma_const_div_value(bin, 9, 0, bin);
    assert(bin % 9 == bin);
    if bin < 8 {
        lemma_const_div_value(bin + 1, 9, 0, bin + 1);
    } else {
        lemma_const_div_value(bin + 1, 9, 1, 0);
    }
}

/// An orientation within the last twenty-degree range splits its weight
/// between bin eight and bin zero: the wrap of the circular histogram.
pub proof fn lemma_bin_wrap(hst: Seq<int>, mag: int, ang: int)
    requires
        hst.len() == 9,
        0 <= mag,
        160_000_000 <= ang < 180_000_000,
    ensures
        ({
            let share = (ang % 20_000_000) / 20;
            let w1 = (mag * share) / 1_000_000;
            &&& distribute(hst, mag, ang)[8] == hst[8] + (mag - w1)
            &&& distribute(hst, mag, ang)[0] == hst[0] + w1
            &&& forall|j: int| 1 <= j < 8 ==> #[trigger] distribute(hst, mag, ang)[j] == hst[j]
        }),
{
    lemma_div_is_ordered(160_000_000, ang, 20_000_000);
    lemma_div_is_ordered(ang, 179_999_999, 20_000_000);
    lemma_const_div_value(160_000_000, 20_000_000, 8, 0);
    lemma_const_div_value(179_999_999, 20_000_000, 8, 19_999_999);
    let bin = ang / 20_000_000;
    assert(bin == 8);
    lemma_const_div_value(8, 9, 0, 8);
    lemma_const_div_value(9, 9, 1, 0);
}

pub proof fn lemma_cell_hist_prefix_props(px: Seq<u8>, w: int, h: int, cx: int, cy: int, n: int)
    requires
        0 <= n,
    ensures
        cell_hist_prefix(px, w, h, cx, cy, n).len() == 9,
        forall|j: int|
            0 <= j < 9 ==> 0 <= #[trigger] cell_hist_prefix(px, w, h, cx, cy, n)[j] <= n
                * 7_100_000_000,
        sum9(cell_hist_prefix(px, w, h, cx, cy, n)) == cell_mag_prefix(px, w, h, cx, cy, n),
    decreases n,
{
    if n == 0 {
    } else {
        lemma_cell_hist_prefix_props(px, w, h, cx, cy, n - 1);
        let x = cell_px_x(cx, n - 1);
        let y = cell_px_y(cy, n - 1);
        lemma_polar_bounds(px, w, h, x, y);
        lemma_distribute_props(
            cell_hist_prefix(px, w, h, cx, cy, n - 1),
            mag_at(px, w, h, x, y),
            ang_at(px, w, h, x, y),
            (n - 1) * 7_100_000_000,
        );
        assert((n - 1) * 7_100_000_000 + 7_100_000_000 == n * 7_100_000_000)
            by (nonlinear_arith);
    }
}

/// Interpolation redistributes but never discards or duplicates weight:
/// the nine bins of a finished cell histogram sum to exactly the sum of
/// the gradient magnitudes of the cell's sixty-four pixels.
pub proof fn lemma_cell_histogram_conserves_mass(px: Seq<u8>, w: int, h: int, cx: int, cy: int)
    ensures
        sum9(cell_hist(px, w, h, cx, cy)) == cell_mag_sum(px, w, h, cx, cy),
{
    lemma_cell_hist_prefix_props(px, w, h, cx, cy, 64);
}

/// A cell coordinate within the grid keeps all its pixels inside the
/// image.
proof fn lemma_cell_inside(dim: int, cells: int, c: int, o: int)
    requires
        cells == dim / 8,
        0 <= c < cells,
        0 <= o < 8,
    ensures
        0 <= c * 8 + o,
        c * 8 + o < dim,
{
    lemma_fundamental_div_mod(dim, 8);
    lemma_mod_bound(dim, 8);
    assert(c * 8 + o < 8 * cells) by (nonlinear_arith)
        requires
            c <= cells - 1,
            0 <= o < 8,
    ;
    assert(0 <= c * 8) by (nonlinear_arith)
        requires
            0 <= c,
    ;
    assert(8 * cells <= dim) by (nonlinear_arith)
        requires
            dim == 8 * (dim / 8) + dim % 8,
            cells == dim / 8,
            dim % 8 >= 0,
    ;
}

/// One nine-bin orientation histogram per cell of the grid, row-major:
/// entry `c` is the histogram of cell `(c % cells_x, c / cells_x)`.
#[verifier::loop_isolation(false)]
pub fn hog_hists(input: &GrayBuffer) -> (r: Vec<Vec<u64>>)
    requires
        (gray_dims(*input).0 as int) * (gray_dims(*input).1 as int) <= 4294967295,
    ensures
        r@.len() == ((gray_dims(*input).0 as int) / 8) * ((gray_dims(*input).1 as int) / 8),
        forall|c: int|
            0 <= c < r@.len() ==> {
                let w = gray_dims(*input).0 as int;
                &&& hist_view(#[trigger] r@[c]) == cell_hist(
                    gray_pixels(*input),
                    w,
                    gray_dims(*input).1 as int,
                    c % (w / 8),
                    c / (w / 8),
                )
                &&& r@[c]@.len() == 9
                &&& forall|j: int| 0 <= j < 9 ==> #[trigger] r@[c]@[j] <= 460_000_000_000
            },
{
    let (w, h) = gray_dimensions(input);
    let ghost px = gray_pixels(*input);
    let field = gradient_field(input);
    let cells_x: usize = (w / 8) as usize;
    let cells_y: usize = (h / 8) as usize;
    proof {
        lemma_fundamental_div_mod(w as int, 8);
        lemma_mod_bound(w as int, 8);
        lemma_div_is_ordered(0, w as int, 8);
        lemma_fundamental_div_mod(h as int, 8);
        lemma_mod_bound(h as int, 8);
        lemma_div_is_ordered(0, h as int, 8);
        assert(0int / 8 == 0);
        lemma_mul_upper_bound(cells_x as int, w as int, cells_y as int, h as int);
    }
    let ncells: usize = cells_x * cells_y;
    let mut hists: Vec<Vec<u64>> = Vec::new();
    let mut c: usize = 0;
    while c < ncells
        invariant
            c <= ncells,
            hists@.len() == c,
            forall|d: int|
                0 <= d < c ==> {
                    &&& hist_view(#[trigger] hists@[d]) == cell_hist(
                        px, w as int, h as int, d % (cells_x as int), d / (cells_x as int),
                    )
                    &&& hists@[d]@.len() == 9
                    &&& forall|j: int| 0 <= j < 9 ==> #[trigger] hists@[d]@[j] <= 460_000_000_000
                },
        decreases ncells - c,
    {
        proof {
            assert(cells_x > 0 && cells_y > 0) by (nonlinear_arith)
                requires
                    (c as int) < (cells_x as int) * (cells_y as int),
                    0 <= c as int,
                    0 <= cells_x as int,
                    0 <= cells_y as int,
            ;
        }
        let cx: usize = c % cells_x;
        let cy: usize = c / cells_x;
        proof {
            lemma_mod_bound(c as int, cells_x as int);
            lemma_fundamental_div_mod(c as int, cells_x as int);
            if cy as int >= cells_y as int {
                lemma_mul_inequality(cells_y as int, cy as int, cells_x as int);
                assert((cells_x as int) * (cy as int) == (cy as int) * (cells_x as int))
                    by (nonlinear_arith);
                assert(false);
            }
        }
        let mut hist: Vec<u64> = vec![0u64, 0u64, 0u64, 0u64, 0u64, 0u64, 0u64, 0u64, 0u64];
        proof {
            assert(hist_view(hist) =~= hist0());
        }
        let mut k: usize = 0;
        while k < 64
            invariant
                k <= 64,
                c < ncells,
                cx == c % cells_x,
                cy == c / cells_x,
                cx < cells_x,
                cy < cells_y,
                hist@.len() == 9,
                hist_view(hist) == cell_hist_prefix(
                    px, w as int, h as int, cx as int, cy as int, k as int,
                ),
            decreases 64 - k,
        {
            let x: usize = cx * 8 + (k % 8);
            let y: usize = cy * 8 + (k / 8);
            proof {
                lemma_cell_inside(w as int, cells_x as int, cx as int, (k as int) % 8);
                lemma_cell_inside(h as int, cells_y as int, cy as int, (k as int) / 8);
                lemma_mod_bound(k as int, 8);
                lemma_div_is_ordered(0, k as int, 8);
                lemma_div_is_ordered(k as int, 63, 8);
                lemma_const_div_value(63, 8, 7, 7);
                lemma_row_major(w as int, h as int, x as int, y as int);
            }
            let idx: usize = y * (w as usize) + x;
            let pair = field[idx];
            let m: u64 = pair.0;
            let a: u64 = pair.1;
            proof {
                lemma_cell_hist_prefix_props(px, w as int, h as int, cx as int, cy as int, k as int);
                lemma_polar_bounds(px, w as int, h as int, x as int, y as int);
                lemma_mod_bound(a as int, 20_000_000int);
                lemma_div_is_ordered(0, a as int % 20_000_000, 20);
                lemma_div_is_ordered(a as int % 20_000_000, 19_999_999, 20);
                lemma_const_div_value(19_999_999, 20, 999_999, 19);
                lemma_div_is_ordered(0, a as int, 20_000_000);
                lemma_div_is_ordered(a as int, 179_999_999, 20_000_000);
                lemma_const_div_value(179_999_999, 20_000_000, 8, 19_999_999);
            }
            let share: u64 = (a % 20_000_000) / 20;
            proof {
                assert((m as int) * (share as int) <= 7_100_000_000int * 999_999int)
                    by (nonlinear_arith)
                    requires
                        0 <= m as int <= 7_100_000_000,
                        0 <= share as int <= 999_999,
                ;
                assert((m as int) * (share as int) == (share as int) * (m as int))
                    by (nonlinear_arith);
                lemma_mul_div_le(share as int, m as int, 1_000_000);
            }
            let w1: u64 = m * share / 1_000_000;
            let w0: u64 = m - w1;
            let bin: u64 = a / 20_000_000;
            let b0: usize = (bin % 9) as usize;
            let b1: usize = ((bin + 1) % 9) as usize;
            proof {
                lemma_mod_bound(bin as int, 9);
                lemma_mod_bound(bin as int + 1, 9);
                lemma_distribute_props(
                    cell_hist_prefix(px, w as int, h as int, cx as int, cy as int, k as int),
                    m as int,
                    a as int,
                    (k as int) * 7_100_000_000,
                );
                assert((k as int) * 7_100_000_000 + 7_100_000_000 <= 64int * 7_100_000_000)
                    by (nonlinear_arith)
                    requires
                        0 <= k as int <= 63,
                ;
            }
            let ghost prev = hist@;
            let cur0 = hist[b0];
            hist[b0] = cur0 + w0;
            proof {
                lemma_hist_view_update(hist, prev, b0 as int, (cur0 + w0) as u64);
            }
            let ghost mid = hist@;
            let cur1 = hist[b1];
            hist[b1] = cur1 + w1;
            proof {
                lemma_hist_view_update(hist, mid, b1 as int, (cur1 + w1) as u64);
                assert(hist_view(hist) == distribute(
                    cell_hist_prefix(px, w as int, h as int, cx as int, cy as int, k as int),
                    m as int,
                    a as int,
                ));
                assert(cell_px_x(cx as int, k as int) == x as int);
                assert(cell_px_y(cy as int, k as int) == y as int);
            }
            k = k + 1;
        }
        proof {
            lemma_cell_hist_prefix_props(px, w as int, h as int, cx as int, cy as int, 64);
        }
        hists.push(hist);
        c = c + 1;
    }
    hists
}


/// The four cell histograms of block `(bx, by)` concatenated: top
/// left, top right, bottom left, bottom right.
pub open spec fn block_cells(hists: Seq<Seq<int>>, cells_x: int, bx: int, by: int) -> Seq<int> {
    hists[by * cells_x + bx] + hists[by * cells_x + bx + 1] + hists[(by + 1) * cells_x + bx]
        + hists[(by + 1) * cells_x + bx + 1]
}

pub open spec fn sum_sq(s: Seq<int>) -> int
    decreases s.len(),
{
    if s.len() == 0 {
        0
    } else {
        sum_sq(s.drop_last()) + s.last() * s.last()
    }
}

/// The divisor of block normalization: the floor square root of the
/// sum of squares plus the small constant that keeps an all-zero block
/// from dividing by zero (the constant is `1e-5` in squared units).
pub open spec fn block_norm_div(s: Seq<int>) -> int {
    sqrt_floor(sum_sq(s) + 10_000_000)
}

/// A block vector after normalization, in millionths.
pub open spec fn norm_block(s: Seq<int>) -> Seq<int> {
    Seq::new(s.len(), |j: int| (s[j] * 1_000_000) / block_norm_div(s))
}

/// All normalized blocks, row-major over the block grid.
pub open spec fn blocks_grid(hists: Seq<Seq<int>>, cells_x: int, cells_y: int) -> Seq<Seq<int>> {
    let nbx = if cells_x >= 1 { cells_x - 1 } else { 0 };
    let nby = if cells_y >= 1 { cells_y - 1 } else { 0 };
    Seq::new((nby * nbx) as nat, |b: int| norm_block(block_cells(hists, cells_x, b % nbx, b / nbx)))
}

/// The integer views of a sequence of executable rows.
pub open spec fn rows_view(rs: Seq<Vec<u64>>) -> Seq<Seq<int>> {
    rs.map_values(|v: Vec<u64>| hist_view(v))
}

pub proof fn lemma_sum_sq_nonneg(s: Seq<int>)
    ensures
        0 <= sum_sq(s),
    decreases s.len(),
{
    if s.len() == 0 {
    } else {
        lemma_sum_sq_nonneg(s.drop_last());
        assert(0 <= s.last() * s.last()) by (nonlinear_arith);
    }
}

/// Every element's square is at most the sum of squares.
pub proof fn lemma_sum_sq_each(s: Seq<int>, j: int)
    requires
        0 <= j < s.len(),
    ensures
        s[j] * s[j] <= sum_sq(s),
    decreases s.len(),
{
    if j == s.len() - 1 {
        lemma_sum_sq_nonneg(s.drop_last());
    } else {
        lemma_sum_sq_each(s.drop_last(), j);
        assert(s.drop_last()[j] == s[j]);
        assert(0 <= s.last() * s.last()) by (nonlinear_arith);
    }
}

pub proof fn lemma_sum_sq_zero(s: Seq<int>)
    requires
        forall|j: int| 0 <= j < s.len() ==> #[trigger] s[j] == 0,
    ensures
        sum_sq(s) == 0,
    decreases s.len(),
{
    if s.len() == 0 {
    } else {
        lemma_sum_sq_zero(s.drop_last());
    }
}

/// A block of all-zero histograms normalizes to the zero vector, not
/// to an undefined quotient: the epsilon term keeps the divisor
/// positive.
pub proof fn lemma_zero_block_stays_zero(s: Seq<int>)
    requires
        forall|j: int| 0 <= j < s.len() ==> #[trigger] s[j] == 0,
    ensures
        forall|j: int| 0 <= j < s.len() ==> #[trigger] norm_block(s)[j] == 0,
{
    lemma_sum_sq_zero(s);
    assert(3162 * 3162 <= 10_000_000 < 3163 * 3163) by (nonlinear_arith);
    lemma_sqrt_floor_is(10_000_000, 3162);
    assert forall|j: int| 0 <= j < s.len() implies #[trigger] norm_block(s)[j] == 0 by {
        assert(s[j] * 1_000_000 == 0) by (nonlinear_arith)
            requires
                s[j] == 0,
        ;
        lemma_const_div_value(0, 3162, 0, 0);
    }
}

/// Normalized entries of a non-negative block lie in `[0, 1_000_000]`.
pub proof fn lemma_norm_block_bounds(s: Seq<int>, j: int)
    requires
        0 <= j < s.len(),
        forall|i: int| 0 <= i < s.len() ==> 0 <= #[trigger] s[i],
    ensures
        0 <= norm_block(s)[j] <= 1_000_000,
        3162 <= block_norm_div(s),
        s[j] <= block_norm_div(s),
{
    lemma_sum_sq_nonneg(s);
    lemma_sum_sq_each(s, j);
    let n = sum_sq(s) + 10_000_000;
    assert(3162 * 3162 <= n) by (nonlinear_arith)
        requires
            0 <= sum_sq(s),
            n == sum_sq(s) + 10_000_000,
    ;
    lemma_sqrt_floor_at_least(n, 3162);
    lemma_sqrt_floor_at_least(n, s[j]);
    let d = block_norm_div(s);
    lemma_mul_inequality(s[j], d, 1_000_000);
    lemma_div_is_ordered(s[j] * 1_000_000, d * 1_000_000, d);
    crate::mathq::lemma_div_of_multiple(1_000_000, d);
    lemma_div_is_ordered(0, s[j] * 1_000_000, d);
    assert(0 <= s[j] * 1_000_000) by (nonlinear_arith)
        requires
            0 <= s[j],
    ;
}

proof fn lemma_unit_energy_prefix(s: Seq<int>, k: int)
    requires
        forall|i: int| 0 <= i < s.len() ==> 0 <= #[trigger] s[i],
        0 <= k <= s.len(),
    ensures
        ({
            let d = block_norm_div(s);
            let nb = norm_block(s);
            &&& sum_sq(nb.take(k)) * (d * d) <= sum_sq(s.take(k)) * 1_000_000_000_000
            &&& sum_sq(s.take(k)) * 1_000_000_000_000 <= (sum_sq(nb.take(k)) + k * 2_000_001) * (
            d * d)
        }),
    decreases k,
{
    let d = block_norm_div(s);
    let nb = norm_block(s);
    if k == 0 {
        assert(sum_sq(nb.take(0)) == 0);
        assert(sum_sq(s.take(0)) == 0);
        assert(0int * (d * d) == 0 && 0int * 1_000_000_000_000 == 0) by (nonlinear_arith);
    } else {
        lemma_unit_energy_prefix(s, k - 1);
        lemma_norm_block_bounds(s, k - 1);
        let v = s[k - 1];
        let u = nb[k - 1];
        assert(u == (v * 1_000_000) / d);
        lemma_fundamental_div_mod(v * 1_000_000, d);
        lemma_mod_bound(v * 1_000_000, d);
        assert(u * d <= v * 1_000_000 && v * 1_000_000 < (u + 1) * d) by (nonlinear_arith)
            requires
                v * 1_000_000 == d * u + (v * 1_000_000) % d,
                0 <= (v * 1_000_000) % d,
                (v * 1_000_000) % d < d,
        ;
        lemma_div_is_ordered(0, v * 1_000_000, d);
        assert(0 <= v * 1_000_000) by (nonlinear_arith)
            requires
                0 <= v,
        ;
        let sp = sum_sq(s.take(k - 1));
        let np = sum_sq(nb.take(k - 1));
        assert(nb.take(k).drop_last() =~= nb.take(k - 1));
        assert(s.take(k).drop_last() =~= s.take(k - 1));
        assert(nb.take(k).last() == u);
        assert(s.take(k).last() == v);
        assert(sum_sq(nb.take(k)) == np + u * u);
        assert(sum_sq(s.take(k)) == sp + v * v);
        assert(u * u * (d * d) <= (v * v) * 1_000_000_000_000) by (nonlinear_arith)
            requires
                0 <= u,
                0 <= d,
                0 <= v,
                u * d <= v * 1_000_000,
        ;
        assert((v * v) * 1_000_000_000_000 <= (u * u + 2_000_001) * (d * d))
            by (nonlinear_arith)
            requires
                0 <= u <= 1_000_000,
                0 < d,
                0 <= v,
                v * 1_000_000 < (u + 1) * d,
        ;
        assert((np + u * u) * (d * d) <= (sp + v * v) * 1_000_000_000_000)
            by (nonlinear_arith)
            requires
                np * (d * d) <= sp * 1_000_000_000_000,
                u * u * (d * d) <= (v * v) * 1_000_000_000_000,
        ;
        assert((sp + v * v) * 1_000_000_000_000 <= ((np + u * u) + k * 2_000_001) * (d * d))
            by (nonlinear_arith)
            requires
                sp * 1_000_000_000_000 <= (np + (k - 1) * 2_000_001) * (d * d),
                (v * v) * 1_000_000_000_000 <= (u * u + 2_000_001) * (d * d),
        ;
    }
}

/// Normalization leaves a block with unit energy, up to the guard term
/// and the fixed-point grain: the sum of squares of a normalized block
/// never exceeds one by more than a thousandth, and reaches one within
/// two thousandths whenever the raw sum of squares is not negligible
/// next to the guard term (both in millionth-squared units).
pub proof fn lemma_norm_block_unit_energy(s: Seq<int>)
    requires
        s.len() == 36,
        forall|i: int| 0 <= i < s.len() ==> 0 <= #[trigger] s[i],
    ensures
        sum_sq(norm_block(s)) <= 1_000_633_000_000,
        sum_sq(s) >= 10_000_000_000 ==> sum_sq(norm_block(s)) >= 998_000_000_000,
{
    let d = block_norm_div(s);
    let nb = norm_block(s);
    let ssq = sum_sq(s);
    let ns = sum_sq(nb);
    lemma_unit_energy_prefix(s, 36);
    assert(nb.take(36) =~= nb);
    assert(s.take(36) =~= s);
    lemma_norm_block_bounds(s, 0);
    lemma_sum_sq_nonneg(s);
    lemma_sum_sq_nonneg(nb);
    crate::mathq::lemma_sqrt_props(ssq + 10_000_000);
    assert(d * d <= ssq + 10_000_000);
    assert(ssq + 10_000_000 < (d + 1) * (d + 1));
    assert(ssq < d * d + 2 * d) by (nonlinear_arith)
        requires
            ssq + 10_000_000 < (d + 1) * (d + 1),
    ;
    if ns > 1_000_633_000_000 {
        assert((ns - 1_000_000_000_000) * (d * d) <= (2 * d) * 1_000_000_000_000)
            by (nonlinear_arith)
            requires
                ns * (d * d) <= ssq * 1_000_000_000_000,
                ssq < d * d + 2 * d,
                0 <= d,
        ;
        assert(633_000_001 * (d * d) <= (2 * d) * 1_000_000_000_000) by (nonlinear_arith)
            requires
                (ns - 1_000_000_000_000) * (d * d) <= (2 * d) * 1_000_000_000_000,
                ns - 1_000_000_000_000 >= 633_000_001,
                0 <= d * d,
        ;
        assert(false) by (nonlinear_arith)
            requires
                633_000_001 * (d * d) <= (2 * d) * 1_000_000_000_000,
                d >= 3162,
        ;
    }
    if ssq >= 10_000_000_000 && ns < 998_000_000_000 {
        assert(ssq * 1_000_000_000_000 <= (ns + 72_000_036) * (ssq + 10_000_000))
            by (nonlinear_arith)
            requires
                ssq * 1_000_000_000_000 <= (ns + 36 * 2_000_001) * (d * d),
                d * d <= ssq + 10_000_000,
                0 <= ns + 36 * 2_000_001,
        ;
        assert(false) by (nonlinear_arith)
            requires
                ssq * 1_000_000_000_000 <= (ns + 72_000_036) * (ssq + 10_000_000),
                ns < 998_000_000_000,
                ssq >= 10_000_000_000,
                0 <= ns,
        ;
    }
}

/// The number of blocks of a `cells_x x cells_y` cell grid: empty when
/// either side has fewer than two cells.
pub open spec fn block_count(cells_x: int, cells_y: int) -> int {
    (if cells_y >= 1 { cells_y - 1 } else { 0 }) * (if cells_x >= 1 { cells_x - 1 } else { 0 })
}

#[verifier::loop_isolation(false)]
fn extend_row(vals: &mut Vec<u64>, row: &Vec<u64>)
    requires
        row@.len() == 9,
    ensures
        final(vals)@ == old(vals)@ + row@,
{
    let mut j: usize = 0;
    while j < 9
        invariant
            j <= 9,
            vals@ == old(vals)@ + row@.take(j as int),
        decreases 9 - j,
    {
        vals.push(row[j]);
        proof {
            assert(vals@ =~= old(vals)@ + row@.take(j as int + 1));
        }
        j = j + 1;
    }
    proof {
        assert(row@.take(9) =~= row@);
    }
}

/// Groups each window of two-by-two neighboring cells into one block,
/// concatenates the four histograms (top left, top right, bottom left,
/// bottom right) and normalizes the thirty-six entries.
#[verifier::loop_isolation(false)]
pub fn normalise_blocks(hists: Vec<Vec<u64>>, cells_x: usize, cells_y: usize) -> (r: Vec<
    Vec<u64>,
>)
    requires
        hists@.len() == (cells_x as int) * (cells_y as int),
        (cells_x as int) * (cells_y as int) <= 4294967295,
        forall|c: int| 0 <= c < hists@.len() ==> (#[trigger] hists@[c])@.len() == 9,
        forall|c: int, j: int|
            0 <= c < hists@.len() && 0 <= j < 9 ==> #[trigger] hists@[c]@[j]
                <= 460_000_000_000,
    ensures
        rows_view(r@) == blocks_grid(rows_view(hists@), cells_x as int, cells_y as int),
        r@.len() == block_count(cells_x as int, cells_y as int),
        forall|b: int| 0 <= b < r@.len() ==> (#[trigger] r@[b])@.len() == 36,
        forall|b: int, j: int|
            0 <= b < r@.len() && 0 <= j < 36 ==> #[trigger] r@[b]@[j] <= 1_000_000,
{
    let ghost rv = rows_view(hists@);
    let mut out: Vec<Vec<u64>> = Vec::new();
    if cells_x == 0 || cells_y == 0 {
        proof {
            assert(rows_view(out@) =~= blocks_grid(rv, cells_x as int, cells_y as int));
        }
        return out;
    }
    let nbx: usize = cells_x - 1;
    let nby: usize = cells_y - 1;
    let mut by: usize = 0;
    while by < nby
        invariant
            by <= nby,
            out@.len() == (by as int) * (nbx as int),
            forall|b: int|
                0 <= b < out@.len() ==> {
                    &&& hist_view(#[trigger] out@[b]) == blocks_grid(
                        rv, cells_x as int, cells_y as int,
                    )[b]
                    &&& out@[b]@.len() == 36
                    &&& forall|j: int| 0 <= j < 36 ==> #[trigger] out@[b]@[j] <= 1_000_000
                },
        decreases nby - by,
    {
        let mut bx: usize = 0;
        while bx < nbx
            invariant
                bx <= nbx,
                by < nby,
                out@.len() == (by as int) * (nbx as int) + bx as int,
                forall|b: int|
                    0 <= b < out@.len() ==> {
                        &&& hist_view(#[trigger] out@[b]) == blocks_grid(
                            rv, cells_x as int, cells_y as int,
                        )[b]
                        &&& out@[b]@.len() == 36
                        &&& forall|j: int| 0 <= j < 36 ==> #[trigger] out@[b]@[j] <= 1_000_000
                    },
            decreases nbx - bx,
        {
            proof {
                assert((by as int + 1) * (cells_x as int) + (bx as int) + 1 < (cells_x as int)
                    * (cells_y as int)) by (nonlinear_arith)
                    requires
                        0 <= bx as int && bx as int <= cells_x as int - 2,
                        0 <= by as int && by as int <= cells_y as int - 2,
                        1 <= cells_x as int,
                        1 <= cells_y as int,
                ;
                assert((by as int) * (cells_x as int) <= (by as int + 1) * (cells_x as int))
                    by (nonlinear_arith)
                    requires
                        0 <= by as int,
                        0 <= cells_x as int,
                ;
                assert(0 <= (by as int) * (cells_x as int)) by (nonlinear_arith)
                    requires
                        0 <= by as int,
                        0 <= cells_x as int,
                ;
            }
            let c0: usize = by * cells_x + bx;
            let c1: usize = c0 + 1;
            let c2: usize = (by + 1) * cells_x + bx;
            let c3: usize = c2 + 1;
            let mut vals: Vec<u64> = Vec::new();
            extend_row(&mut vals, &hists[c0]);
            extend_row(&mut vals, &hists[c1]);
            extend_row(&mut vals, &hists[c2]);
            extend_row(&mut vals, &hists[c3]);
            let ghost bcv = block_cells(rv, cells_x as int, bx as int, by as int);
            proof {
                assert(hist_view(vals) =~= bcv);
                assert(vals@.len() == 36);
                assert forall|i: int| 0 <= i < 36 implies #[trigger] vals@[i]
                    <= 460_000_000_000 by {
                    assert(vals@[i] == if i < 9 {
                        hists@[c0 as int]@[i]
                    } else if i < 18 {
                        hists@[c1 as int]@[i - 9]
                    } else if i < 27 {
                        hists@[c2 as int]@[i - 18]
                    } else {
                        hists@[c3 as int]@[i - 27]
                    });
                }
                assert forall|i: int| 0 <= i < 36 implies 0 <= #[trigger] bcv[i] by {
                    assert(bcv[i] == vals@[i] as int);
                }
            }
            let mut ssq: u128 = 0;
            let mut j: usize = 0;
            while j < 36
                invariant
                    j <= 36,
                    ssq as int == sum_sq(bcv.take(j as int)),
                    ssq as int <= (j as int) * 212_000_000_000_000_000_000_000,
                decreases 36 - j,
            {
                let v = vals[j];
                proof {
                    assert(bcv.take(j as int + 1).drop_last() =~= bcv.take(j as int));
                    assert(bcv.take(j as int + 1).last() == v as int);
                    assert((v as int) * (v as int) <= 212_000_000_000_000_000_000_000int)
                        by (nonlinear_arith)
                        requires
                            0 <= v as int <= 460_000_000_000,
                    ;
                    assert((j as int) * 212_000_000_000_000_000_000_000int
                        + 212_000_000_000_000_000_000_000int == (j as int + 1)
                        * 212_000_000_000_000_000_000_000int) by (nonlinear_arith);
                    assert((j as int + 1) * 212_000_000_000_000_000_000_000int <= 36int
                        * 212_000_000_000_000_000_000_000int) by (nonlinear_arith)
                        requires
                            j as int + 1 <= 36,
                    ;
                }
                ssq = ssq + (v as u128) * (v as u128);
                j = j + 1;
            }
            proof {
                assert(bcv.take(36) =~= bcv);
            }
            let l2: u64 = isqrt(ssq + 10_000_000);
            proof {
                lemma_sqrt_floor_is(
                    (ssq + 10_000_000) as int,
                    l2 as int,
                );
                assert(l2 as int == block_norm_div(bcv));
            }
            let mut rowv: Vec<u64> = Vec::new();
            let mut j2: usize = 0;
            while j2 < 36
                invariant
                    j2 <= 36,
                    rowv@.len() == j2,
                    l2 as int == block_norm_div(bcv),
                    forall|i: int|
                        0 <= i < j2 ==> (#[trigger] rowv@[i]) as int == norm_block(bcv)[i]
                            && rowv@[i] <= 1_000_000,
                decreases 36 - j2,
            {
                let v = vals[j2];
                proof {
                    lemma_norm_block_bounds(bcv, j2 as int);
                    assert((v as int) * 1_000_000 <= 460_000_000_000_000_000int)
                        by (nonlinear_arith)
                        requires
                            0 <= v as int <= 460_000_000_000,
                    ;
                }
                rowv.push(v * 1_000_000 / l2);
                j2 = j2 + 1;
            }
            proof {
                assert(hist_view(rowv) =~= norm_block(bcv));
                let b = (by as int) * (nbx as int) + bx as int;
                lemma_fundamental_div_mod_converse(b, nbx as int, by as int, bx as int);
                assert(0 <= b && b < (nby as int) * (nbx as int)) by (nonlinear_arith)
                    requires
                        0 <= bx as int && (bx as int) < nbx as int,
                        0 <= by as int && (by as int) < nby as int,
                        b == (by as int) * (nbx as int) + bx as int,
                ;
            }
            out.push(rowv);
            bx = bx + 1;
        }
        proof {
            assert((by as int) * (nbx as int) + (nbx as int) == (by as int + 1) * (nbx as int))
                by (nonlinear_arith);
        }
        by = by + 1;
    }
    proof {
        assert(rows_view(out@) =~= blocks_grid(rv, cells_x as int, cells_y as int));
        assert((nby as int) * (nbx as int) == block_count(cells_x as int, cells_y as int));
    }
    out
}

/// The whole forward pipeline on the samples of a `w x h` image:
/// gradients, cell histograms, normalized blocks.
pub open spec fn hog_data_spec(px: Seq<u8>, w: int, h: int) -> Seq<Seq<int>> {
    blocks_grid(
        Seq::new(((w / 8) * (h / 8)) as nat, |c: int| cell_hist(px, w, h, c % (w / 8), c / (w / 8))),
        w / 8,
        h / 8,
    )
}

/// The descriptor: source image dimensions, the cell and block sizes
/// of the grid, and every normalized block vector, row-major over the
/// block grid. Entries carry six decimal fixed-point places.
#[derive(Debug, PartialEq, Eq)]
pub struct HogResult {
    pub dimensions: (u32, u32),
    pub cell_size: usize,
    pub block_size: usize,
    pub data: Vec<Vec<u64>>,
}

impl HogResult {
    /// The integer view of the stored block vectors.
    pub open spec fn data_view(&self) -> Seq<Seq<int>> {
        rows_view(self.data@)
    }

    /// A structurally valid descriptor: positive grid parameters, a
    /// block count that matches the dimensions, uniform row length,
    /// and entries small enough to render with one integer digit.
    pub open spec fn wf(&self) -> bool {
        &&& 1 <= self.cell_size <= 4096
        &&& 1 <= self.block_size <= 16
        &&& self.data@.len() == block_count(
            (self.dimensions.0 as int) / (self.cell_size as int),
            (self.dimensions.1 as int) / (self.cell_size as int),
        )
        &&& forall|b: int|
            0 <= b < self.data@.len() ==> (#[trigger] self.data@[b])@.len() == 9 * (
            self.block_size as int) * (self.block_size as int)
        &&& forall|b: int, j: int|
            0 <= b < self.data@.len() && 0 <= j < self.data@[b]@.len()
                ==> #[trigger] self.data@[b]@[j] <= 9_999_999
    }
}

/// Runs the full pipeline on one image: per-pixel gradients, one
/// orientation histogram per eight-by-eight cell, and one normalized
/// thirty-six entry vector per two-by-two block of cells.
pub fn calc_hog(input: GrayBuffer) -> (r: HogResult)
    requires
        (gray_dims(input).0 as int) * (gray_dims(input).1 as int) <= 4294967295,
    ensures
        r.dimensions == gray_dims(input),
        r.cell_size == 8,
        r.block_size == 2,
        r.data_view() == hog_data_spec(
            gray_pixels(input),
            gray_dims(input).0 as int,
            gray_dims(input).1 as int,
        ),
        r.data@.len() == block_count(
            (gray_dims(input).0 as int) / 8,
            (gray_dims(input).1 as int) / 8,
        ),
        forall|b: int| 0 <= b < r.data@.len() ==> (#[trigger] r.data@[b])@.len() == 36,
        r.wf(),
{
    let (w, h) = gray_dimensions(&input);
    let ghost px = gray_pixels(input);
    let hists = hog_hists(&input);
    let cells_x: usize = (w / 8) as usize;
    let cells_y: usize = (h / 8) as usize;
    proof {
        lemma_fundamental_div_mod(w as int, 8);
        lemma_mod_bound(w as int, 8);
        lemma_div_is_ordered(0, w as int, 8);
        lemma_fundamental_div_mod(h as int, 8);
        lemma_mod_bound(h as int, 8);
        lemma_div_is_ordered(0, h as int, 8);
        assert(0int / 8 == 0);
        lemma_mul_upper_bound(cells_x as int, w as int, cells_y as int, h as int);
        assert(rows_view(hists@) =~= Seq::new(
            (((w as int) / 8) * ((h as int) / 8)) as nat,
            |c: int|
                cell_hist(px, w as int, h as int, c % ((w as int) / 8), c / ((w as int) / 8)),
        ));
    }
    let normed = normalise_blocks(hists, cells_x, cells_y);
    let r = HogResult { dimensions: (w, h), cell_size: 8, block_size: 2, data: normed };
    proof {
        assert(r.wf());
    }
    r
}

/// The signed step `i/10` of the way from one coordinate toward
/// another, in the truncating fixed-point arithmetic of the drawer.
pub open spec fn step_frac(d: int, i: int) -> int {
    if d >= 0 {
        (i * d) / 10
    } else {
        -((i * -d) / 10)
    }
}

/// One interpolated point of a segment written onto the canvas:
/// out-of-bounds points are skipped, in-bounds points overwrite.
pub open spec fn line_pix(
    canvas: Seq<u8>,
    w: int,
    h: int,
    sx: int,
    sy: int,
    ex: int,
    ey: int,
    color: u8,
    i: int,
) -> Seq<u8> {
    let x = sx + step_frac(ex - sx, i);
    let y = sy + step_frac(ey - sy, i);
    if 0 <= x && x < w * 1_000_000 && 0 <= y && y < h * 1_000_000 {
        canvas.update((y / 1_000_000) * w + (x / 1_000_000), color)
    } else {
        canvas
    }
}

pub open spec fn line_prefix(
    canvas: Seq<u8>,
    w: int,
    h: int,
    sx: int,
    sy: int,
    ex: int,
    ey: int,
    color: u8,
    n: int,
) -> Seq<u8>
    decreases n,
{
    if n <= 0 {
        canvas
    } else {
        line_pix(
            line_prefix(canvas, w, h, sx, sy, ex, ey, color, n - 1),
            w, h, sx, sy, ex, ey, color, n - 1,
        )
    }
}

pub open spec fn cos_mag_q(bin: int) -> int {
    if bin == 0 { 1_000_000 }
    else if bin == 1 { 939_693 }
    else if bin == 2 { 766_044 }
    else if bin == 3 { 500_000 }
    else if bin == 4 { 173_648 }
    else if bin == 5 { 173_648 }
    else if bin == 6 { 500_000 }
    else if bin == 7 { 766_044 }
    else { 939_693 }
}

pub open spec fn cos_is_neg(bin: int) -> bool {
    bin >= 5
}

pub open spec fn sin_mag_q(bin: int) -> int {
    if bin == 0 { 0 }
    else if bin == 1 { 342_020 }
    else if bin == 2 { 642_788 }
    else if bin == 3 { 866_025 }
    else if bin == 4 { 984_808 }
    else if bin == 5 { 984_808 }
    else if bin == 6 { 866_025 }
    else if bin == 7 { 642_788 }
    else { 342_020 }
}

/// The written intensity of a bin of strength `p` (millionths): the
/// strength scaled to the sample range, rounded to the nearest sample,
/// and saturated.
pub open spec fn inten(p: int) -> u8 {
    let t = (p * 255 + 500_000) / 1_000_000;
    if t > 255 {
        255u8
    } else {
        t as u8
    }
}

/// One visualization step: block `op / 9`, bin `op % 9`. A bin whose
/// scaled strength is under the threshold of a tenth is skipped; any
/// other draws an eleven-point segment through the center of the
/// block's top-left cell at the bin's angle.
pub open spec fn vis_op(
    canvas: Seq<u8>,
    data: Seq<Seq<int>>,
    w: int,
    h: int,
    cs: int,
    scale: int,
    nbx: int,
    op: int,
) -> Seq<u8> {
    let b = op / 9;
    let bin = op % 9;
    let bx = b % nbx;
    let by = b / nbx;
    let v = data[b][bin];
    let p = (v * scale) / 1_000_000;
    if p < 100_000 {
        canvas
    } else {
        let cxq = (bx * cs + cs / 2) * 1_000_000;
        let cyq = (by * cs + cs / 2) * 1_000_000;
        let mx = (cos_mag_q(bin) * cs) / 2;
        let my = (sin_mag_q(bin) * cs) / 2;
        let dxq = if cos_is_neg(bin) { -mx } else { mx };
        line_prefix(canvas, w, h, cxq - dxq, cyq - my, cxq + dxq, cyq + my, inten(p), 11)
    }
}

pub open spec fn vis_prefix(
    data: Seq<Seq<int>>,
    w: int,
    h: int,
    cs: int,
    scale: int,
    nbx: int,
    n: int,
) -> Seq<u8>
    decreases n,
{
    if n <= 0 {
        Seq::new((w * h) as nat, |i: int| 0u8)
    } else {
        vis_op(vis_prefix(data, w, h, cs, scale, nbx, n - 1), data, w, h, cs, scale, nbx, n - 1)
    }
}

/// The finished visualization canvas: every block's top-left cell
/// histogram drawn as nine oriented segments over a black canvas of
/// the descriptor's dimensions.
pub open spec fn vis_spec(data: Seq<Seq<int>>, w: int, h: int, cs: int, scale: int) -> Seq<u8> {
    let nbx = if w / cs >= 1 { w / cs - 1 } else { 0 };
    vis_prefix(data, w, h, cs, scale, nbx, block_count(w / cs, h / cs) * 9)
}

fn cos_parts(bin: usize) -> (r: (bool, u64))
    requires
        bin < 9,
    ensures
        r.0 == cos_is_neg(bin as int),
        r.1 == cos_mag_q(bin as int),
{
    match bin {
        0 => (false, 1_000_000),
        1 => (false, 939_693),
        2 => (false, 766_044),
        3 => (false, 500_000),
        4 => (false, 173_648),
        5 => (true, 173_648),
        6 => (true, 500_000),
        7 => (true, 766_044),
        _ => (true, 939_693),
    }
}

fn sin_part(bin: usize) -> (r: u64)
    requires
        bin < 9,
    ensures
        r == sin_mag_q(bin as int),
{
    match bin {
        0 => 0,
        1 => 342_020,
        2 => 642_788,
        3 => 866_025,
        4 => 984_808,
        5 => 984_808,
        6 => 866_025,
        7 => 642_788,
        _ => 342_020,
    }
}

/// Writes the interpolated points of one segment, with endpoint
/// coordinates in millionths of a pixel.
#[verifier::loop_isolation(false)]
fn draw_line(
    img: &mut GrayBuffer,
    sx: i64,
    sy: i64,
    ex: i64,
    ey: i64,
    color: u8,
)
    requires
        -5_000_000_000_000_000 <= sx <= 5_000_000_000_000_000,
        -5_000_000_000_000_000 <= sy <= 5_000_000_000_000_000,
        -5_000_000_000_000_000 <= ex <= 5_000_000_000_000_000,
        -5_000_000_000_000_000 <= ey <= 5_000_000_000_000_000,
    ensures
        gray_dims(*final(img)) == gray_dims(*old(img)),
        gray_pixels(*final(img)) == line_prefix(
            gray_pixels(*old(img)),
            gray_dims(*old(img)).0 as int,
            gray_dims(*old(img)).1 as int,
            sx as int,
            sy as int,
            ex as int,
            ey as int,
            color,
            11,
        ),
{
    let (w, h) = gray_dimensions(img);
    let dx: i64 = ex - sx;
    let dy: i64 = ey - sy;
    let mut i: u64 = 0;
    while i < 11
        invariant
            i <= 11,
            gray_dims(*img) == gray_dims(*old(img)),
            gray_pixels(*img) == line_prefix(
                gray_pixels(*old(img)),
                w as int,
                h as int,
                sx as int,
                sy as int,
                ex as int,
                ey as int,
                color,
                i as int,
            ),
        decreases 11 - i,
    {
        proof {
            if dx >= 0 {
                assert((i as int) * (((dx as u64)) as int) <= 110_000_000_000_000_000int)
                    by (nonlinear_arith)
                    requires
                        0 <= i as int <= 11,
                        0 <= ((dx as u64)) as int <= 10_000_000_000_000_000,
                ;
            } else {
                assert((i as int) * ((((-dx) as u64)) as int) <= 110_000_000_000_000_000int)
                    by (nonlinear_arith)
                    requires
                        0 <= i as int <= 11,
                        0 <= (((-dx) as u64)) as int <= 10_000_000_000_000_000,
                ;
            }
            if dy >= 0 {
                assert((i as int) * (((dy as u64)) as int) <= 110_000_000_000_000_000int)
                    by (nonlinear_arith)
                    requires
                        0 <= i as int <= 11,
                        0 <= ((dy as u64)) as int <= 10_000_000_000_000_000,
                ;
            } else {
                assert((i as int) * ((((-dy) as u64)) as int) <= 110_000_000_000_000_000int)
                    by (nonlinear_arith)
                    requires
                        0 <= i as int <= 11,
                        0 <= (((-dy) as u64)) as int <= 10_000_000_000_000_000,
                ;
            }
        }
        let ox: i64 = if dx >= 0 {
            ((i * (dx as u64)) / 10) as i64
        } else {
            -(((i * ((-dx) as u64)) / 10) as i64)
        };
        let oy: i64 = if dy >= 0 {
            ((i * (dy as u64)) / 10) as i64
        } else {
            -(((i * ((-dy) as u64)) / 10) as i64)
        };
        proof {
            if dx < 0 {
                assert((i as int) * ((-(dx as int))) == -((i as int) * (dx as int)))
                    by (nonlinear_arith);
            }
            if dy < 0 {
                assert((i as int) * ((-(dy as int))) == -((i as int) * (dy as int)))
                    by (nonlinear_arith);
            }
            assert(ox as int == step_frac(dx as int, i as int));
            assert(oy as int == step_frac(dy as int, i as int));
        }
        let x: i64 = sx + ox;
        let y: i64 = sy + oy;
        if x >= 0 && x < (w as i64) * 1_000_000 && y >= 0 && y < (h as i64) * 1_000_000 {
            let xp: u32 = (((x as u64)) / 1_000_000) as u32;
            let yp: u32 = (((y as u64)) / 1_000_000) as u32;
            proof {
                crate::mathq::lemma_div_lt(x as int, w as int, 1_000_000);
                crate::mathq::lemma_div_lt(y as int, h as int, 1_000_000);
                lemma_div_is_ordered(0, x as int, 1_000_000);
                lemma_div_is_ordered(0, y as int, 1_000_000);
            }
            gray_put(img, xp, yp, color);
        }
        i = i + 1;
    }
}

/// Reconstructs an image of the descriptor's dimensions: for every
/// block, the nine bins of its top-left cell histogram are drawn as
/// segments whose angle encodes the bin and whose intensity encodes
/// the scaled bin strength.
#[verifier::loop_isolation(false)]
pub fn visualize_hog(hog: &HogResult, strength_scale: u64) -> (r: GrayBuffer)
    requires
        hog.wf(),
        (hog.dimensions.0 as int) * (hog.dimensions.1 as int) <= 4294967295,
        strength_scale <= 1_000_000_000_000,
    ensures
        gray_dims(r) == hog.dimensions,
        gray_pixels(r) == vis_spec(
            hog.data_view(),
            hog.dimensions.0 as int,
            hog.dimensions.1 as int,
            hog.cell_size as int,
            strength_scale as int,
        ),
{
    let w = hog.dimensions.0;
    let h = hog.dimensions.1;
    let cs = hog.cell_size;
    let mut canvas = gray_new(w, h);
    let cells_x: usize = (w as usize) / cs;
    let cells_y: usize = (h as usize) / cs;
    let ghost dv = hog.data_view();
    if cells_x < 1 || cells_y < 1 {
        proof {
            assert(block_count((w as int) / (cs as int), (h as int) / (cs as int)) == 0);
        }
        return canvas;
    }
    let nbx: usize = cells_x - 1;
    let nby: usize = cells_y - 1;
    let mut b: usize = 0;
    while b < hog.data.len()
        invariant
            b <= hog.data@.len(),
            gray_dims(canvas) == (w, h),
            gray_pixels(canvas) == vis_prefix(
                dv, w as int, h as int, cs as int, strength_scale as int, nbx as int,
                (b as int) * 9,
            ),
        decreases hog.data@.len() - b,
    {
        proof {
            assert(nbx as int >= 1);
            assert(hog.data@.len() == (nby as int) * (nbx as int));
        }
        let bx: usize = b % nbx;
        let by: usize = b / nbx;
        proof {
            lemma_mod_bound(b as int, nbx as int);
            lemma_fundamental_div_mod(b as int, nbx as int);
            if (by as int) >= nby as int {
                lemma_mul_inequality(nby as int, by as int, nbx as int);
                assert((nbx as int) * (by as int) == (by as int) * (nbx as int))
                    by (nonlinear_arith);
                assert(false);
            }
        }
        let mut bin: usize = 0;
        while bin < 9
            invariant
                bin <= 9,
                b < hog.data@.len(),
                bx == b % nbx,
                by == b / nbx,
                bx < nbx,
                by < nby,
                gray_dims(canvas) == (w, h),
                gray_pixels(canvas) == vis_prefix(
                    dv, w as int, h as int, cs as int, strength_scale as int, nbx as int,
                    (b as int) * 9 + bin as int,
                ),
            decreases 9 - bin,
        {
            let ghost op = (b as int) * 9 + bin as int;
            proof {
                crate::mathq::lemma_const_div_mod(op, 9, b as int, bin as int);
                assert(9 * (hog.block_size as int) * (hog.block_size as int) >= 9)
                    by (nonlinear_arith)
                    requires
                        1 <= hog.block_size as int,
                ;
                assert(hog.data@[b as int]@.len() >= 9);
            }
            let v: u64 = hog.data[b][bin];
            proof {
                assert(hog.data@[b as int]@[bin as int] <= 9_999_999);
                assert(dv[b as int] == hist_view(hog.data@[b as int]));
                assert(dv[b as int][bin as int] == v as int);
                assert((v as int) * (strength_scale as int)
                    <= 9_999_999int * 1_000_000_000_000int) by (nonlinear_arith)
                    requires
                        0 <= v as int <= 9_999_999,
                        0 <= strength_scale as int <= 1_000_000_000_000,
                ;
            }
            let p: u64 = v * strength_scale / 1_000_000;
            if p >= 100_000 {
                proof {
                    lemma_center_inside(w as int, cs as int, bx as int);
                    lemma_center_inside(h as int, cs as int, by as int);
                    assert((cs as int) / 2 <= 2048);
                }
                let center_x: i64 = ((bx * cs + cs / 2) as i64) * 1_000_000;
                let center_y: i64 = ((by * cs + cs / 2) as i64) * 1_000_000;
                let cp = cos_parts(bin);
                let sp = sin_part(bin);
                proof {
                    assert(cp.1 * (cs as u64) <= 1_000_000 * 4096) by (nonlinear_arith)
                        requires
                            cp.1 <= 1_000_000,
                            cs as int <= 4096,
                            0 <= cs as int,
                    ;
                    assert(sp * (cs as u64) <= 1_000_000 * 4096) by (nonlinear_arith)
                        requires
                            sp <= 1_000_000,
                            cs as int <= 4096,
                            0 <= cs as int,
                    ;
                }
                let mx: u64 = cp.1 * (cs as u64) / 2;
                let my: u64 = sp * (cs as u64) / 2;
                let dxq: i64 = if cp.0 {
                    -(mx as i64)
                } else {
                    mx as i64
                };
                let dyq: i64 = my as i64;
                let ghost pixels_before = gray_pixels(canvas);
                draw_line(
                    &mut canvas,
                    center_x - dxq,
                    center_y - dyq,
                    center_x + dxq,
                    center_y + dyq,
                    if p >= 1_000_000 {
                        255
                    } else {
                        ((p * 255 + 500_000) / 1_000_000) as u8
                    },
                );
                proof {
                    let pi = (v as int) * (strength_scale as int) / 1_000_000;
                    assert(pi == p as int);
                    if p >= 1_000_000 {
                        lemma_div_is_ordered(
                            1_000_000int * 255 + 500_000,
                            pi * 255 + 500_000,
                            1_000_000,
                        );
                        crate::mathq::lemma_const_div_mod(
                            1_000_000int * 255 + 500_000,
                            1_000_000,
                            255,
                            500_000,
                        );
                        assert((pi * 255 + 500_000) / 1_000_000 >= 255);
                        assert(inten(pi) == 255u8);
                    } else {
                        assert((p as int) * 255 <= 999_999int * 255) by (nonlinear_arith)
                            requires
                                0 <= p as int <= 999_999,
                        ;
                        lemma_div_is_ordered(
                            (p as int) * 255 + 500_000,
                            999_999int * 255 + 500_000,
                            1_000_000,
                        );
                        crate::mathq::lemma_const_div_mod(
                            999_999int * 255 + 500_000,
                            1_000_000,
                            255,
                            499_745,
                        );
                        lemma_div_is_ordered(0, (p as int) * 255 + 500_000, 1_000_000);
                        assert(0 <= (p as int) * 255) by (nonlinear_arith)
                            requires
                                0 <= p as int,
                        ;
                        assert(inten(pi) == ((p * 255 + 500_000) / 1_000_000) as u8);
                    }
                    assert(gray_pixels(canvas) == vis_op(
                        pixels_before, dv, w as int, h as int, cs as int,
                        strength_scale as int, nbx as int, op,
                    ));
                }
            }
            proof {
                assert(gray_pixels(canvas) == vis_prefix(
                    dv, w as int, h as int, cs as int, strength_scale as int, nbx as int,
                    op + 1,
                ));
            }
            bin = bin + 1;
        }
        proof {
            assert((b as int) * 9 + 9 == (b as int + 1) * 9) by (nonlinear_arith);
        }
        b = b + 1;
    }
    proof {
        assert((nby as int) * (nbx as int) * 9 == block_count(
            (w as int) / (cs as int),
            (h as int) / (cs as int),
        ) * 9);
    }
    canvas
}

proof fn lemma_flat_conv_zero(
    px: Seq<u8>,
    w: int,
    h: int,
    x: int,
    y: int,
    c: u8,
    direction: SobelDirection,
)
    requires
        px.len() == w * h,
        1 <= w,
        1 <= h,
        forall|i: int| 0 <= i < px.len() ==> #[trigger] px[i] == c,
    ensures
        conv_at(px, w, h, 3, 3, sobel_weights(direction), x, y) == 0,
{
    let s = sobel_weights(direction);
    let ci = c as int;
    assert forall|k: int| 0 <= k < 9 implies crate::kernel::conv_term(px, w, h, 3, 3, s, x, y, k)
        == ci * s[k] by {
        crate::kernel::lemma_conv_term_constant(px, w, h, 3, 3, s, x, y, k, c);
    }
    assert(crate::kernel::conv_prefix(px, w, h, 3, 3, s, x, y, 9) == ci * s[0] + ci * s[1] + ci
        * s[2] + ci * s[3] + ci * s[4] + ci * s[5] + ci * s[6] + ci * s[7] + ci * s[8]) by {
        reveal_with_fuel(crate::kernel::conv_prefix, 10);
    }
    match direction {
        SobelDirection::Horizontal => {
            assert(s[0] == 1_000_000 && s[1] == 2_000_000 && s[2] == 1_000_000 && s[3] == 0
                && s[4] == 0 && s[5] == 0 && s[6] == -1_000_000 && s[7] == -2_000_000 && s[8]
                == -1_000_000);
        },
        SobelDirection::Vertical => {
            assert(s[0] == -1_000_000 && s[1] == 0 && s[2] == 1_000_000 && s[3] == -2_000_000
                && s[4] == 0 && s[5] == 2_000_000 && s[6] == -1_000_000 && s[7] == 0 && s[8]
                == 1_000_000);
        },
    }
    assert(ci * 1_000_000 + ci * 2_000_000 + ci * 1_000_000 + ci * 0 + ci * 0 + ci * 0 + ci
        * -1_000_000 + ci * -2_000_000 + ci * -1_000_000 == 0) by (nonlinear_arith);
    assert(ci * -1_000_000 + ci * 0 + ci * 1_000_000 + ci * -2_000_000 + ci * 0 + ci * 2_000_000
        + ci * -1_000_000 + ci * 0 + ci * 1_000_000 == 0) by (nonlinear_arith);
}

/// On a constant image the whole gradient field vanishes: every
/// magnitude and every orientation is zero.
pub proof fn lemma_flat_image_zero_field(px: Seq<u8>, w: int, h: int, c: u8)
    requires
        px.len() == w * h,
        1 <= w,
        1 <= h,
        forall|i: int| 0 <= i < px.len() ==> #[trigger] px[i] == c,
    ensures
        forall|x: int, y: int| #[trigger] mag_at(px, w, h, x, y) == 0,
        forall|x: int, y: int| #[trigger] ang_at(px, w, h, x, y) == 0,
{
    assert forall|x: int, y: int| #[trigger] mag_at(px, w, h, x, y) == 0 by {
        lemma_flat_conv_zero(px, w, h, x, y, c, SobelDirection::Horizontal);
        lemma_flat_conv_zero(px, w, h, x, y, c, SobelDirection::Vertical);
        assert(0int * 0int == 0) by (nonlinear_arith);
        lemma_sqrt_floor_is(0, 0);
    }
    assert forall|x: int, y: int| #[trigger] ang_at(px, w, h, x, y) == 0 by {
        lemma_flat_conv_zero(px, w, h, x, y, c, SobelDirection::Horizontal);
        lemma_flat_conv_zero(px, w, h, x, y, c, SobelDirection::Vertical);
        crate::mathq::lemma_const_div_mod(0, 180_000_000, 0, 0);
    }
}

proof fn lemma_distribute_zero(hst: Seq<int>)
    requires
        hst.len() == 9,
    ensures
        distribute(hst, 0, 0) == hst,
{
    crate::mathq::lemma_const_div_mod(0, 20_000_000, 0, 0);
    crate::mathq::lemma_const_div_mod(0, 20, 0, 0);
    assert(0int * 0int == 0) by (nonlinear_arith);
    crate::mathq::lemma_const_div_mod(0, 1_000_000, 0, 0);
    crate::mathq::lemma_const_div_mod(0, 9, 0, 0);
    crate::mathq::lemma_const_div_mod(1, 9, 0, 1);
    assert(distribute(hst, 0, 0) =~= hst);
}

proof fn lemma_flat_cell_hist_zero(px: Seq<u8>, w: int, h: int, cx: int, cy: int, c: u8, n: int)
    requires
        px.len() == w * h,
        1 <= w,
        1 <= h,
        forall|i: int| 0 <= i < px.len() ==> #[trigger] px[i] == c,
        0 <= n,
    ensures
        cell_hist_prefix(px, w, h, cx, cy, n) == hist0(),
    decreases n,
{
    if n == 0 {
    } else {
        lemma_flat_cell_hist_zero(px, w, h, cx, cy, c, n - 1);
        lemma_flat_image_zero_field(px, w, h, c);
        lemma_distribute_zero(hist0());
    }
}

/// On a constant image the pipeline's descriptor is all zero: zero
/// gradients give zero histograms, and the guarded normalization
/// leaves every block vector zero.
#[verifier::rlimit(100)]
pub proof fn lemma_flat_image_descriptor_is_zero(px: Seq<u8>, w: int, h: int, c: u8)
    requires
        px.len() == w * h,
        1 <= w,
        1 <= h,
        forall|i: int| 0 <= i < px.len() ==> #[trigger] px[i] == c,
    ensures
        forall|b: int, j: int|
            0 <= b < hog_data_spec(px, w, h).len() && 0 <= j < hog_data_spec(px, w, h)[b].len()
                ==> #[trigger] hog_data_spec(px, w, h)[b][j] == 0,
{
    let cx = w / 8;
    let cy = h / 8;
    let hists = Seq::new(
        ((w / 8) * (h / 8)) as nat,
        |c0: int| cell_hist(px, w, h, c0 % (w / 8), c0 / (w / 8)),
    );
    let nbx = if cx >= 1 { cx - 1 } else { 0 };
    let nby = if cy >= 1 { cy - 1 } else { 0 };
    lemma_div_is_ordered(0, w, 8);
    lemma_div_is_ordered(0, h, 8);
    crate::mathq::lemma_const_div_mod(0, 8, 0, 0);
    assert(hists.len() == cx * cy) by (nonlinear_arith)
        requires
            hists.len() == ((w / 8) * (h / 8)) as nat,
            cx == w / 8,
            cy == h / 8,
            0 <= cx,
            0 <= cy,
    ;
    assert forall|c0: int| 0 <= c0 < hists.len() implies #[trigger] hists[c0] == hist0() by {
        lemma_flat_cell_hist_zero(px, w, h, c0 % (w / 8), c0 / (w / 8), c, 64);
    }
    assert forall|b: int, j: int|
        0 <= b < hog_data_spec(px, w, h).len() && 0 <= j < hog_data_spec(px, w, h)[b].len()
            implies #[trigger] hog_data_spec(px, w, h)[b][j] == 0 by {
        let bx = b % nbx;
        let by = b / nbx;
        assert(nbx >= 1) by (nonlinear_arith)
            requires
                0 <= b,
                b < nby * nbx,
                0 <= nby,
                0 <= nbx,
        ;
        lemma_mod_bound(b, nbx);
        lemma_fundamental_div_mod(b, nbx);
        if by >= nby {
            lemma_mul_inequality(nby, by, nbx);
            assert(nbx * by == by * nbx) by (nonlinear_arith);
            assert(false);
        }
        assert(0 <= by) by (nonlinear_arith)
            requires
                0 <= b,
                b == nbx * by + bx,
                0 <= bx,
                bx < nbx,
                1 <= nbx,
        ;
        assert(0 <= by * cx + bx && by * cx + bx + 1 < cx * cy && 0 <= (by + 1) * cx + bx && (by
            + 1) * cx + bx + 1 < cx * cy) by (nonlinear_arith)
            requires
                0 <= bx && bx <= cx - 2,
                0 <= by && by <= cy - 2,
                1 <= cx,
                1 <= cy,
        ;
        assert(hists[by * cx + bx] == hist0());
        assert(hists[by * cx + bx + 1] == hist0());
        assert(hists[(by + 1) * cx + bx] == hist0());
        assert(hists[(by + 1) * cx + bx + 1] == hist0());
        let bc = block_cells(hists, cx, bx, by);
        assert(bc =~= hist0() + hist0() + hist0() + hist0());
        assert forall|i: int| 0 <= i < bc.len() implies #[trigger] bc[i] == 0 by {
        }
        lemma_zero_block_stays_zero(bc);
        assert(hog_data_spec(px, w, h)[b] == norm_block(bc));
    }
}

proof fn lemma_column_constant_grad_x_zero(px: Seq<u8>, w: int, h: int, x: int, y: int)
    requires
        px.len() == w * h,
        1 <= w,
        1 <= h,
        forall|i: int| 0 <= i < px.len() ==> #[trigger] px[i] == px[i % w],
    ensures
        grad_x_at(px, w, h, x, y) == 0,
{
    let s = sobel_weights(SobelDirection::Horizontal);
    assert forall|k: int| 0 <= k < 9 implies crate::kernel::conv_term(px, w, h, 3, 3, s, x, y, k)
        == (px[crate::kernel::clamp_i(x + k % 3 - 1, 0, w - 1)] as int) * s[k] by {
        let cx = crate::kernel::clamp_i(x + k % 3 - 1, 0, w - 1);
        let cy = crate::kernel::clamp_i(y + k / 3 - 1, 0, h - 1);
        assert(0 <= cx < w);
        assert(0 <= cy < h);
        assert(0 <= cy * w + cx < w * h) by (nonlinear_arith)
            requires
                0 <= cx < w,
                0 <= cy < h,
        ;
        lemma_fundamental_div_mod_converse(cy * w + cx, w, cy, cx);
        assert(px[cy * w + cx] == px[cx]);
        assert(crate::kernel::conv_term(px, w, h, 3, 3, s, x, y, k) == (px[cx] as int) * s[k]);
    }
    crate::mathq::lemma_const_div_mod(0, 3, 0, 0);
    crate::mathq::lemma_const_div_mod(1, 3, 0, 1);
    crate::mathq::lemma_const_div_mod(2, 3, 0, 2);
    crate::mathq::lemma_const_div_mod(3, 3, 1, 0);
    crate::mathq::lemma_const_div_mod(4, 3, 1, 1);
    crate::mathq::lemma_const_div_mod(5, 3, 1, 2);
    crate::mathq::lemma_const_div_mod(6, 3, 2, 0);
    crate::mathq::lemma_const_div_mod(7, 3, 2, 1);
    crate::mathq::lemma_const_div_mod(8, 3, 2, 2);
    let s0 = px[crate::kernel::clamp_i(x - 1, 0, w - 1)] as int;
    let s1 = px[crate::kernel::clamp_i(x, 0, w - 1)] as int;
    let s2 = px[crate::kernel::clamp_i(x + 1, 0, w - 1)] as int;
    assert(crate::kernel::conv_prefix(px, w, h, 3, 3, s, x, y, 9) == s0 * s[0] + s1 * s[1] + s2
        * s[2] + s0 * s[3] + s1 * s[4] + s2 * s[5] + s0 * s[6] + s1 * s[7] + s2 * s[8]) by {
        reveal_with_fuel(crate::kernel::conv_prefix, 10);
    }
    assert(s[0] == 1_000_000 && s[1] == 2_000_000 && s[2] == 1_000_000 && s[3] == 0 && s[4] == 0
        && s[5] == 0 && s[6] == -1_000_000 && s[7] == -2_000_000 && s[8] == -1_000_000);
    assert(s0 * 1_000_000 + s1 * 2_000_000 + s2 * 1_000_000 + s0 * 0 + s1 * 0 + s2 * 0 + s0
        * -1_000_000 + s1 * -2_000_000 + s2 * -1_000_000 == 0) by (nonlinear_arith);
}

/// An orientation over a vanishing horizontal response sits exactly on
/// ninety degrees, or is zero when the gradient itself vanishes.
proof fn lemma_orient_on_vertical_axis(gy: int)
    ensures
        gy == 0 ==> orient_udeg_spec(gy, 0) == 0,
        gy != 0 ==> orient_udeg_spec(gy, 0) == 90_000_000,
{
    crate::mathq::lemma_const_div_mod(0, 180_000_000, 0, 0);
    if gy != 0 {
        let ay = if gy < 0 { -gy } else { gy };
        assert(crate::mathq::octant_udeg_spec(0, ay) == 0) by {
            crate::mathq::lemma_const_div_mod(0, ay, 0, 0);
            assert(0int * 1073741824 == 0) by (nonlinear_arith);
            assert(crate::mathq::atan_poly_q30(0) == 0) by {
                crate::mathq::lemma_const_div_mod(0, 1073741824, 0, 0);
                assert(0int * 0int == 0) by (nonlinear_arith);
                assert(0int * 22371518 == 0) by (nonlinear_arith);
                assert(0int * 91410863 == 0) by (nonlinear_arith);
                assert(0int * 193424926 == 0) by (nonlinear_arith);
                assert(0int * 354656388 == 0) by (nonlinear_arith);
                assert(0int * 1073597943 == 0) by (nonlinear_arith);
            }
            assert(0int * 57295780 == 0) by (nonlinear_arith);
        }
        crate::mathq::lemma_const_div_mod(90_000_000, 180_000_000, 0, 90_000_000);
        crate::mathq::lemma_const_div_mod(-90_000_000, 180_000_000, -1, 90_000_000);
    }
}

/// On an image whose columns are each constant (a hard vertical edge,
/// for instance) every gradient is horizontal: each cell histogram
/// holds its whole weight in the two bins nearest ninety degrees.
pub proof fn lemma_column_constant_weight_sits_at_ninety(
    px: Seq<u8>,
    w: int,
    h: int,
    cx: int,
    cy: int,
)
    requires
        px.len() == w * h,
        1 <= w,
        1 <= h,
        forall|i: int| 0 <= i < px.len() ==> #[trigger] px[i] == px[i % w],
    ensures
        forall|j: int|
            0 <= j < 9 && j != 4 && j != 5 ==> #[trigger] cell_hist(px, w, h, cx, cy)[j] == 0,
{
    lemma_column_constant_hist_prefix(px, w, h, cx, cy, 64);
}

/// On a column-constant image the two bins nearest ninety degrees hold
/// the cell's entire gradient mass: with the conservation law above,
/// any cell that contains a nonzero gradient puts nonzero weight there.
pub proof fn lemma_column_constant_mass_in_ninety_bins(
    px: Seq<u8>,
    w: int,
    h: int,
    cx: int,
    cy: int,
)
    requires
        px.len() == w * h,
        1 <= w,
        1 <= h,
        forall|i: int| 0 <= i < px.len() ==> #[trigger] px[i] == px[i % w],
    ensures
        cell_hist(px, w, h, cx, cy)[4] + cell_hist(px, w, h, cx, cy)[5] == cell_mag_sum(
            px, w, h, cx, cy,
        ),
{
    lemma_column_constant_weight_sits_at_ninety(px, w, h, cx, cy);
    lemma_cell_histogram_conserves_mass(px, w, h, cx, cy);
    lemma_cell_hist_prefix_props(px, w, h, cx, cy, 64);
}

proof fn lemma_column_constant_hist_prefix(
    px: Seq<u8>,
    w: int,
    h: int,
    cx: int,
    cy: int,
    n: int,
)
    requires
        px.len() == w * h,
        1 <= w,
        1 <= h,
        forall|i: int| 0 <= i < px.len() ==> #[trigger] px[i] == px[i % w],
        0 <= n,
    ensures
        cell_hist_prefix(px, w, h, cx, cy, n).len() == 9,
        forall|j: int|
            0 <= j < 9 && j != 4 && j != 5 ==> #[trigger] cell_hist_prefix(px, w, h, cx, cy, n)[j]
                == 0,
    decreases n,
{
    lemma_cell_hist_prefix_props(px, w, h, cx, cy, n);
    if n == 0 {
    } else {
        lemma_column_constant_hist_prefix(px, w, h, cx, cy, n - 1);
        lemma_cell_hist_prefix_props(px, w, h, cx, cy, n - 1);
        let x = cell_px_x(cx, n - 1);
        let y = cell_px_y(cy, n - 1);
        lemma_column_constant_grad_x_zero(px, w, h, x, y);
        lemma_orient_on_vertical_axis(grad_y_at(px, w, h, x, y));
        let mag = mag_at(px, w, h, x, y);
        let ang = ang_at(px, w, h, x, y);
        let prev = cell_hist_prefix(px, w, h, cx, cy, n - 1);
        if grad_y_at(px, w, h, x, y) == 0 {
            assert(mag == 0) by {
                assert(0int * 0int == 0) by (nonlinear_arith);
                lemma_sqrt_floor_is(0, 0);
            }
            lemma_distribute_zero(prev);
        } else {
            assert(ang == 90_000_000);
            crate::mathq::lemma_const_div_mod(90_000_000, 20_000_000, 4, 10_000_000);
            crate::mathq::lemma_const_div_mod(4, 9, 0, 4);
            crate::mathq::lemma_const_div_mod(5, 9, 0, 5);
        }
    }
}

/// A cell's center stays strictly inside the image along its axis.
proof fn lemma_center_inside(dim: int, cs: int, c: int)
    requires
        1 <= cs,
        0 <= c,
        c < dim / cs,
    ensures
        0 <= c * cs + cs / 2,
        c * cs + cs / 2 < dim,
{
    lemma_fundamental_div_mod(dim, cs);
    lemma_mod_bound(dim, cs);
    lemma_fundamental_div_mod(cs, 2);
    lemma_mod_bound(cs, 2);
    assert(c * cs + cs / 2 < cs * (dim / cs)) by (nonlinear_arith)
        requires
            1 <= cs,
            0 <= c,
            c <= dim / cs - 1,
            2 * (cs / 2) <= cs,
            0 <= cs / 2,
    ;
    assert(0 <= c * cs) by (nonlinear_arith)
        requires
            0 <= c,
            0 <= cs,
    ;
}

} // verus!
