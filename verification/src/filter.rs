//! The Sobel convolution engine: kernels, convolution, gradient-magnitude
//! combination, and the per-pixel driver loop.

use crate::grid::clamp_to;
use crate::grid::Grid;
use vstd::prelude::*;

verus! {

/// Largest integer whose square does not exceed `n`.
pub open spec fn isqrt_spec(n: nat) -> nat
    decreases n,
{
    if n == 0 {
        0
    } else {
        let r = isqrt_spec((n - 1) as nat);
        if (r + 1) * (r + 1) <= n {
            r + 1
        } else {
            r
        }
    }
}

/// [`isqrt_spec`] is characterized by `r*r <= n < (r+1)*(r+1)`.
pub proof fn lemma_isqrt_spec_bounds(n: nat)
    ensures
        isqrt_spec(n) * isqrt_spec(n) <= n,
        n < (isqrt_spec(n) + 1) * (isqrt_spec(n) + 1),
    decreases n,
{
    if n > 0 {
        lemma_isqrt_spec_bounds((n - 1) as nat);
        let r = isqrt_spec((n - 1) as nat);
        assert(r * r <= n - 1 < (r + 1) * (r + 1));
        if (r + 1) * (r + 1) <= n {
            assert(isqrt_spec(n) == r + 1);
            assert(n < (isqrt_spec(n) + 1) * (isqrt_spec(n) + 1)) by (nonlinear_arith)
                requires
                    isqrt_spec(n) == r + 1,
                    n <= (r + 1) * (r + 1),
            ;
        } else {
            assert(isqrt_spec(n) == r);
        }
    } else {
        assert(isqrt_spec(n) == 0);
        assert(n < (isqrt_spec(n) + 1) * (isqrt_spec(n) + 1)) by (nonlinear_arith)
            requires
                n == 0,
                isqrt_spec(n) == 0,
        ;
    }
}

/// No two integers satisfy the square-root characterization for one `n`.
pub proof fn lemma_isqrt_unique(n: nat, r: nat, s: nat)
    requires
        r * r <= n < (r + 1) * (r + 1),
        s * s <= n < (s + 1) * (s + 1),
    ensures
        r == s,
{
    if r != s {
        assert(false) by (nonlinear_arith)
            requires
                r * r <= n < (r + 1) * (r + 1),
                s * s <= n < (s + 1) * (s + 1),
                r != s,
        ;
    }
}

/// Integer square root: the floor of the real square root of `n`.
pub fn isqrt(n: u32) -> (r: u32)
    ensures
        r == isqrt_spec(n as nat),
{
    let mut r: u32 = 0;
    loop
        invariant
            r * r <= n,
            r <= 0xFFFF,
        ensures
            r * r <= n < (r + 1) * (r + 1),
        decreases n - r * r,
    {
        let next: u32 = r + 1;
        proof {
            assert((next as u64) * (next as u64) <= u64::MAX) by (nonlinear_arith)
                requires
                    next <= 0x10000,
            ;
        }
        if (next as u64) * (next as u64) <= n as u64 {
            proof {
                assert(next * next <= n ==> next <= 0xFFFF) by (nonlinear_arith)
                    requires
                        n <= 0xFFFF_FFFF,
                ;
                assert(r * r < next * next) by (nonlinear_arith)
                    requires
                        next == r + 1,
                        r >= 0,
                ;
            }
            r = next;
        } else {
            break ;
        }
    }
    proof {
        lemma_isqrt_spec_bounds(n as nat);
        lemma_isqrt_unique(n as nat, r as nat, isqrt_spec(n as nat));
    }
    r
}

/// Weight of the horizontal Sobel kernel at row `i`, column `j`
/// (row-major; row index follows the x offset, column index the y offset).
pub open spec fn kernel_x_weight(i: int, j: int) -> int {
    if i == 0 {
        if j == 1 {
            -2
        } else {
            -1
        }
    } else if i == 1 {
        0
    } else {
        if j == 1 {
            2
        } else {
            1
        }
    }
}

/// Weight of the vertical Sobel kernel at row `i`, column `j`.
pub open spec fn kernel_y_weight(i: int, j: int) -> int {
    if j == 0 {
        if i == 1 {
            -2
        } else {
            -1
        }
    } else if j == 1 {
        0
    } else {
        if i == 1 {
            2
        } else {
            1
        }
    }
}

/// The horizontal Sobel kernel, `[[-1,-2,-1],[0,0,0],[1,2,1]]`.
pub fn sobel_kernel_x() -> (k: [[i32; 3]; 3])
    ensures
        forall|i: int, j: int|
            0 <= i < 3 && 0 <= j < 3 ==> #[trigger] k@[i]@[j] == kernel_x_weight(i, j),
{
    let k: [[i32; 3]; 3] = [[-1, -2, -1], [0, 0, 0], [1, 2, 1]];
    k
}

/// The vertical Sobel kernel, `[[-1,0,1],[-2,0,2],[-1,0,1]]`.
pub fn sobel_kernel_y() -> (k: [[i32; 3]; 3])
    ensures
        forall|i: int, j: int|
            0 <= i < 3 && 0 <= j < 3 ==> #[trigger] k@[i]@[j] == kernel_y_weight(i, j),
{
    let k: [[i32; 3]; 3] = [[-1, 0, 1], [-2, 0, 2], [-1, 0, 1]];
    k
}

/// The weighted sum of a 3x3 kernel against a 3x3 sample window.
pub open spec fn convolve_sum(k: [[i32; 3]; 3], p: [[u8; 3]; 3]) -> int {
    k@[0]@[0] * p@[0]@[0] + k@[0]@[1] * p@[0]@[1] + k@[0]@[2] * p@[0]@[2] + k@[1]@[0] * p@[1]@[0]
        + k@[1]@[1] * p@[1]@[1] + k@[1]@[2] * p@[1]@[2] + k@[2]@[0] * p@[2]@[0] + k@[2]@[1]
        * p@[2]@[1] + k@[2]@[2] * p@[2]@[2]
}

/// One weighted sample: a kernel weight times an 8-bit sample.
fn wmul(k: i32, p: u8) -> (r: i32)
    requires
        -1000 <= k <= 1000,
    ensures
        r == k * p,
        -255000 <= r <= 255000,
{
    proof {
        assert(-255000 <= k * p <= 255000) by (nonlinear_arith)
            requires
                -1000 <= k <= 1000,
                0 <= p <= 255,
        ;
    }
    k * (p as i32)
}

/// Convolves a kernel with a 3x3 block of samples: the element-wise
/// products of the 9 weights and the 9 samples, summed.
///
/// The classical formulation divides this sum by the fixed normalization
/// constant 8 after scaling each sample into `[0,1]`; both divisions are
/// deferred to [`magnitude`], where the combined result is computed
/// exactly in integers.
pub fn convolve(kernel: &[[i32; 3]; 3], pixels: &[[u8; 3]; 3]) -> (r: i32)
    requires
        forall|i: int, j: int| 0 <= i < 3 && 0 <= j < 3 ==> -1000 <= #[trigger] kernel@[i]@[j]
            <= 1000,
    ensures
        r == convolve_sum(*kernel, *pixels),
{
    wmul(kernel[0][0], pixels[0][0]) + wmul(kernel[0][1], pixels[0][1]) + wmul(
        kernel[0][2],
        pixels[0][2],
    ) + wmul(kernel[1][0], pixels[1][0]) + wmul(kernel[1][1], pixels[1][1]) + wmul(
        kernel[1][2],
        pixels[1][2],
    ) + wmul(kernel[2][0], pixels[2][0]) + wmul(kernel[2][1], pixels[2][1]) + wmul(
        kernel[2][2],
        pixels[2][2],
    )
}

/// Combines the two directional convolution sums into the 8-bit
/// edge-strength sample: exactly `floor(sqrt(gx*gx + gy*gy)) / 8`.
///
/// This is the exact integer value of the classical pipeline: normalize
/// each convolution by `8 * 255`, take `sqrt(gx^2 + gy^2)`, scale back by
/// 255 and truncate toward zero. The Sobel convolution of 8-bit samples
/// stays within `[-1020, 1020]`, so the result is at most 180 and the
/// 8-bit conversion can neither saturate nor wrap.
pub fn magnitude(gx: i32, gy: i32) -> (m: u8)
    requires
        -1020 <= gx <= 1020,
        -1020 <= gy <= 1020,
    ensures
        m == isqrt_spec((gx * gx + gy * gy) as nat) / 8,
{
    proof {
        assert(0 <= gx * gx <= 1040400 && 0 <= gy * gy <= 1040400) by (nonlinear_arith)
            requires
                -1020 <= gx <= 1020,
                -1020 <= gy <= 1020,
        ;
    }
    let s: u32 = (gx * gx + gy * gy) as u32;
    let root: u32 = isqrt(s);
    proof {
        lemma_isqrt_spec_bounds(s as nat);
        assert(isqrt_spec(s as nat) <= 1442) by (nonlinear_arith)
            requires
                isqrt_spec(s as nat) * isqrt_spec(s as nat) <= s,
                s <= 2080800,
        ;
    }
    (root / 8) as u8
}

/// The horizontal gradient sum at `(x, y)`: the horizontal Sobel kernel
/// convolved with the boundary-extended 3x3 window centered there.
pub open spec fn grad_x(g: Grid, x: int, y: int) -> int {
    -1 * g.sample(x - 1, y - 1) + -2 * g.sample(x - 1, y) + -1 * g.sample(x - 1, y + 1) + 1
        * g.sample(x + 1, y - 1) + 2 * g.sample(x + 1, y) + 1 * g.sample(x + 1, y + 1)
}

/// The vertical gradient sum at `(x, y)`: the vertical Sobel kernel
/// convolved with the same window.
pub open spec fn grad_y(g: Grid, x: int, y: int) -> int {
    -1 * g.sample(x - 1, y - 1) + 1 * g.sample(x - 1, y + 1) + -2 * g.sample(x, y - 1) + 2
        * g.sample(x, y + 1) + -1 * g.sample(x + 1, y - 1) + 1 * g.sample(x + 1, y + 1)
}

/// The edge-strength sample the filter stores at `(x, y)`:
/// `floor(sqrt(grad_x^2 + grad_y^2)) / 8`.
pub open spec fn edge_at(g: Grid, x: int, y: int) -> int {
    isqrt_spec((grad_x(g, x, y) * grad_x(g, x, y) + grad_y(g, x, y) * grad_y(g, x, y)) as nat)
        as int / 8
}

/// `r` is the Sobel-filtered image of `g`: same dimensions, and every
/// pixel holds the edge-strength sample of `g` at its coordinate.
pub open spec fn filtered(g: Grid, r: Grid) -> bool {
    &&& r.wf()
    &&& r.width == g.width
    &&& r.height == g.height
    &&& forall|x: int, y: int|
        0 <= x < g.width && 0 <= y < g.height ==> #[trigger] r.at(x, y) == edge_at(g, x, y)
}

/// The two gradient sums of 8-bit samples stay within `[-1020, 1020]`:
/// each kernel's positive weights, as its negative ones, add up to 4.
pub proof fn lemma_grad_bounds(g: Grid, x: int, y: int)
    ensures
        -1020 <= grad_x(g, x, y) <= 1020,
        -1020 <= grad_y(g, x, y) <= 1020,
{
}

/// A row-major index built from in-range coordinates is in range.
proof fn lemma_rowmajor_in_range(w: int, h: int, x: int, y: int)
    requires
        0 <= x < w,
        0 <= y < h,
    ensures
        0 <= y * w + x < w * h,
{
    assert(0 <= y * w + x < w * h) by (nonlinear_arith)
        requires
            0 <= x < w,
            0 <= y < h,
    ;
}

/// Row-major indexing is injective over in-range coordinates.
proof fn lemma_rowmajor_injective(w: int, x1: int, y1: int, x2: int, y2: int)
    requires
        0 <= x1 < w,
        0 <= x2 < w,
        y1 * w + x1 == y2 * w + x2,
    ensures
        x1 == x2 && y1 == y2,
{
    assert(x1 == x2 && y1 == y2) by (nonlinear_arith)
        requires
            0 <= x1 < w,
            0 <= x2 < w,
            y1 * w + x1 == y2 * w + x2,
    ;
}

/// Applies the Sobel operator to an entire grayscale grid.
///
/// The result has the input's dimensions, and every pixel holds the
/// gradient magnitude of the input at its coordinate; the input is never
/// mutated. A grid with a zero dimension comes back as an equally
/// dimensioned empty grid, untouched by arithmetic.
#[verifier::loop_isolation(false)]
#[verifier::rlimit(60)]
pub fn sobel_filter(input: &Grid) -> (out: Grid)
    requires
        input.wf(),
    ensures
        filtered(*input, out),
        out.data@.len() == input.data@.len(),
{
    let kx: [[i32; 3]; 3] = sobel_kernel_x();
    let ky: [[i32; 3]; 3] = sobel_kernel_y();
    let data: Vec<u8> = input.data.clone();
    proof {
        assert(data@ =~= input.data@);
    }
    let mut out = Grid { width: input.width, height: input.height, data };
    let w: usize = input.width;
    let h: usize = input.height;
    let mut x: usize = 0;
    while x < w
        invariant
            x <= w,
            out.wf(),
            out.width == w,
            out.height == h,
            out.data@.len() == input.data@.len(),
            forall|xx: int, yy: int|
                0 <= xx < x && 0 <= yy < h ==> #[trigger] out.at(xx, yy) == edge_at(*input, xx, yy),
        decreases w - x,
    {
        let mut y: usize = 0;
        while y < h
            invariant
                y <= h,
                x < w,
                out.wf(),
                out.width == w,
                out.height == h,
                out.data@.len() == input.data@.len(),
                forall|xx: int, yy: int|
                    0 <= xx < x && 0 <= yy < h ==> #[trigger] out.at(xx, yy) == edge_at(
                        *input,
                        xx,
                        yy,
                    ),
                forall|yy: int|
                    0 <= yy < y ==> #[trigger] out.at(x as int, yy) == edge_at(
                        *input,
                        x as int,
                        yy,
                    ),
            decreases h - y,
        {
            let xi: i32 = x as i32;
            let yi: i32 = y as i32;
            let win: [[u8; 3]; 3] = [
                [
                    input.get_pixel_luma_extended(xi - 1, yi - 1),
                    input.get_pixel_luma_extended(xi - 1, yi),
                    input.get_pixel_luma_extended(xi - 1, yi + 1),
                ],
                [
                    input.get_pixel_luma_extended(xi, yi - 1),
                    input.get_pixel_luma_extended(xi, yi),
                    input.get_pixel_luma_extended(xi, yi + 1),
                ],
                [
                    input.get_pixel_luma_extended(xi + 1, yi - 1),
                    input.get_pixel_luma_extended(xi + 1, yi),
                    input.get_pixel_luma_extended(xi + 1, yi + 1),
                ],
            ];
            let gradient_x: i32 = convolve(&kx, &win);
            let gradient_y: i32 = convolve(&ky, &win);
            proof {
                assert(win@[0]@[0] == input.sample(x as int - 1, y as int - 1));
                assert(win@[0]@[1] == input.sample(x as int - 1, y as int));
                assert(win@[0]@[2] == input.sample(x as int - 1, y as int + 1));
                assert(win@[1]@[0] == input.sample(x as int, y as int - 1));
                assert(win@[1]@[1] == input.sample(x as int, y as int));
                assert(win@[1]@[2] == input.sample(x as int, y as int + 1));
                assert(win@[2]@[0] == input.sample(x as int + 1, y as int - 1));
                assert(win@[2]@[1] == input.sample(x as int + 1, y as int));
                assert(win@[2]@[2] == input.sample(x as int + 1, y as int + 1));
                assert(kx@[0]@[0] == -1 && kx@[0]@[1] == -2 && kx@[0]@[2] == -1);
                assert(kx@[1]@[0] == 0 && kx@[1]@[1] == 0 && kx@[1]@[2] == 0);
                assert(kx@[2]@[0] == 1 && kx@[2]@[1] == 2 && kx@[2]@[2] == 1);
                assert(ky@[0]@[0] == -1 && ky@[0]@[1] == 0 && ky@[0]@[2] == 1);
                assert(ky@[1]@[0] == -2 && ky@[1]@[1] == 0 && ky@[1]@[2] == 2);
                assert(ky@[2]@[0] == -1 && ky@[2]@[1] == 0 && ky@[2]@[2] == 1);
                assert(gradient_x == grad_x(*input, x as int, y as int));
                assert(gradient_y == grad_y(*input, x as int, y as int));
                lemma_grad_bounds(*input, x as int, y as int);
            }
            let m: u8 = magnitude(gradient_x, gradient_y);
            let ghost prev = out;
            out.put_pixel_luma_extended(xi, yi, m);
            proof {
                assert(clamp_to(xi as int, w - 1) == x as int);
                assert(clamp_to(yi as int, h - 1) == y as int);
                lemma_rowmajor_in_range(w as int, h as int, x as int, y as int);
                assert(out.at(x as int, y as int) == edge_at(*input, x as int, y as int));
                assert forall|xx: int, yy: int|
                    0 <= xx < w && 0 <= yy < h && !(xx == x as int && yy == y as int) implies out.at(
                    xx,
                    yy,
                ) == prev.at(xx, yy) by {
                    lemma_rowmajor_in_range(w as int, h as int, xx, yy);
                    if yy * w + xx == y as int * w + x as int {
                        lemma_rowmajor_injective(w as int, xx, yy, x as int, y as int);
                    }
                }
            }
            y = y + 1;
        }
        x = x + 1;
    }
    out
}

/// Every stored sample of `g` equals `v`.
pub open spec fn uniform(g: Grid, v: u8) -> bool {
    forall|i: int| 0 <= i < g.data@.len() ==> g.data@[i] == v
}

/// Clamp-to-edge extension reads the same stored sample whatever the
/// coordinate: on a uniform grid every boundary-extended read yields `v`.
pub proof fn lemma_uniform_sample(g: Grid, v: u8, x: int, y: int)
    requires
        g.wf(),
        g.width >= 1,
        g.height >= 1,
        uniform(g, v),
    ensures
        g.sample(x, y) == v,
{
    lemma_rowmajor_in_range(
        g.width as int,
        g.height as int,
        clamp_to(x, g.width - 1),
        clamp_to(y, g.height - 1),
    );
}

/// Uniform-image zero response: a grid whose samples all equal one value
/// filters to an all-zero magnitude image, since every 3x3 window is
/// constant and both kernels' weights sum to zero.
pub proof fn lemma_uniform_zero_response(g: Grid, r: Grid, v: u8)
    requires
        g.wf(),
        uniform(g, v),
        filtered(g, r),
    ensures
        forall|x: int, y: int| 0 <= x < r.width && 0 <= y < r.height ==> #[trigger] r.at(x, y)
            == 0,
{
    assert forall|x: int, y: int| 0 <= x < r.width && 0 <= y < r.height implies #[trigger] r.at(
        x,
        y,
    ) == 0 by {
        lemma_uniform_sample(g, v, x - 1, y - 1);
        lemma_uniform_sample(g, v, x - 1, y);
        lemma_uniform_sample(g, v, x - 1, y + 1);
        lemma_uniform_sample(g, v, x, y - 1);
        lemma_uniform_sample(g, v, x, y + 1);
        lemma_uniform_sample(g, v, x + 1, y - 1);
        lemma_uniform_sample(g, v, x + 1, y);
        lemma_uniform_sample(g, v, x + 1, y + 1);
        assert(grad_x(g, x, y) == 0);
        assert(grad_y(g, x, y) == 0);
        assert(isqrt_spec(0) == 0);
    }
}

/// Boundary-extension at the origin corner: the window offsets that fall
/// outside the grid read the grid's own corner sample (clamp-to-edge,
/// not zero-fill, not wrap-around).
pub proof fn lemma_corner_extension(g: Grid)
    requires
        g.wf(),
        g.width >= 1,
        g.height >= 1,
    ensures
        g.sample(-1, -1) == g.at(0, 0),
        g.sample(-1, 0) == g.at(0, 0),
        g.sample(0, -1) == g.at(0, 0),
{
}

/// Degenerate dimensions: a grid with zero width or zero height filters
/// to an equally-dimensioned empty grid.
pub proof fn lemma_degenerate_empty(g: Grid, r: Grid)
    requires
        g.wf(),
        filtered(g, r),
        g.width == 0 || g.height == 0,
    ensures
        r.width == g.width,
        r.height == g.height,
        r.data@.len() == 0,
{
}

/// Determinism: the filter's output is a function of the input grid
/// alone; any two grids filtered from the same input are equal in
/// dimensions and contents.
pub proof fn lemma_filter_deterministic(g: Grid, a: Grid, b: Grid)
    requires
        g.wf(),
        filtered(g, a),
        filtered(g, b),
    ensures
        a.width == b.width,
        a.height == b.height,
        a.data@ == b.data@,
{
    let w = g.width as int;
    let h = g.height as int;
    assert forall|i: int| 0 <= i < a.data@.len() implies a.data@[i] == b.data@[i] by {
        assert(w >= 1 && h >= 1) by (nonlinear_arith)
            requires
                0 <= i < w * h,
                w >= 0,
                h >= 0,
        ;
        let x = i % w;
        let y = i / w;
        vstd::arithmetic::div_mod::lemma_fundamental_div_mod(i, w);
        vstd::arithmetic::div_mod::lemma_mod_bound(i, w);
        assert(0 <= y && y < h) by (nonlinear_arith)
            requires
                i == w * y + x,
                0 <= x < w,
                0 <= i < w * h,
        ;
        assert(y * w + x == i) by (nonlinear_arith)
            requires
                i == w * y + x,
        ;
        assert(a.at(x, y) == edge_at(g, x, y));
        assert(b.at(x, y) == edge_at(g, x, y));
    }
    assert(a.data@ =~= b.data@);
}

} // verus!
