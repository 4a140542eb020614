use vstd::prelude::*;
use crate::grayimg::{GrayBuffer, gray_dims, gray_pixels, gray_get, gray_dimensions};

verus! {

/// A `height x width` matrix of weights for the neighborhood-sum
/// primitive. Weights carry six decimal fixed-point places: a stored
/// value `w` stands for the real weight `w / 1_000_000`.
pub struct Kernel {
    pub height: u32,
    pub width: u32,
    pub content: Vec<i64>,
}

pub enum SobelDirection {
    Horizontal,
    Vertical,
}

pub open spec fn clamp_i(v: int, lo: int, hi: int) -> int {
    if v < lo {
        lo
    } else if v > hi {
        hi
    } else {
        v
    }
}

/// The sample of a `w x h` row-major buffer at `(x, y)`, with
/// out-of-range coordinates clamped to the nearest edge.
pub open spec fn sample_clamped(px: Seq<u8>, w: int, h: int, x: int, y: int) -> int {
    px[clamp_i(y, 0, h - 1) * w + clamp_i(x, 0, w - 1)] as int
}

pub open spec fn sobel_weights(direction: SobelDirection) -> Seq<i64> {
    match direction {
        SobelDirection::Horizontal => seq![
            1_000_000i64, 2_000_000i64, 1_000_000i64,
            0i64, 0i64, 0i64,
            -1_000_000i64, -2_000_000i64, -1_000_000i64,
        ],
        SobelDirection::Vertical => seq![
            -1_000_000i64, 0i64, 1_000_000i64,
            -2_000_000i64, 0i64, 2_000_000i64,
            -1_000_000i64, 0i64, 1_000_000i64,
        ],
    }
}

proof fn lemma_nine_weights_bounded(s: Seq<i64>)
    requires
        s.len() == 9,
        -2_000_000 <= s[0] <= 2_000_000,
        -2_000_000 <= s[1] <= 2_000_000,
        -2_000_000 <= s[2] <= 2_000_000,
        -2_000_000 <= s[3] <= 2_000_000,
        -2_000_000 <= s[4] <= 2_000_000,
        -2_000_000 <= s[5] <= 2_000_000,
        -2_000_000 <= s[6] <= 2_000_000,
        -2_000_000 <= s[7] <= 2_000_000,
        -2_000_000 <= s[8] <= 2_000_000,
    ensures
        forall|i: int| 0 <= i < s.len() ==> -1_000_000_000 <= #[trigger] s[i] <= 1_000_000_000,
{
    assert forall|i: int| 0 <= i < s.len() implies -1_000_000_000 <= #[trigger] s[i]
        <= 1_000_000_000 by {
        if i == 0 {
        } else if i == 1 {
        } else if i == 2 {
        } else if i == 3 {
        } else if i == 4 {
        } else if i == 5 {
        } else if i == 6 {
        } else if i == 7 {
        } else {
            assert(i == 8);
        }
    }
}

proof fn lemma_mul_abs_bound(a: int, b: int, ca: int, cb: int)
    by (nonlinear_arith)
    requires
        0 <= a <= ca,
        -cb <= b <= cb,
        0 <= cb,
    ensures
        -(ca * cb) <= a * b <= ca * cb,
{
}

/// The `k`-th term (row-major over the kernel) of the weighted
/// neighborhood sum of a `kh x kw` kernel `wts` centered at `(ix, iy)`.
pub open spec fn conv_term(
    px: Seq<u8>,
    w: int,
    h: int,
    kh: int,
    kw: int,
    wts: Seq<i64>,
    ix: int,
    iy: int,
    k: int,
) -> int {
    let ky = k / kw;
    let kx = k % kw;
    sample_clamped(px, w, h, ix + kx - kw / 2, iy + ky - kh / 2) * wts[k]
}

pub open spec fn conv_prefix(
    px: Seq<u8>,
    w: int,
    h: int,
    kh: int,
    kw: int,
    wts: Seq<i64>,
    ix: int,
    iy: int,
    n: int,
) -> int
    decreases n,
{
    if n <= 0 {
        0
    } else {
        conv_prefix(px, w, h, kh, kw, wts, ix, iy, n - 1) + conv_term(
            px, w, h, kh, kw, wts, ix, iy, n - 1,
        )
    }
}

/// The weighted neighborhood sum at `(ix, iy)`: every kernel entry
/// times the edge-clamped sample under it, in millionths.
pub open spec fn conv_at(
    px: Seq<u8>,
    w: int,
    h: int,
    kh: int,
    kw: int,
    wts: Seq<i64>,
    ix: int,
    iy: int,
) -> int {
    conv_prefix(px, w, h, kh, kw, wts, ix, iy, kh * kw)
}

/// The fixed gradient weights all lie within two units (in millionths).
pub proof fn lemma_sobel_weights_bounded(direction: SobelDirection)
    ensures
        sobel_weights(direction).len() == 9,
        forall|k: int|
            0 <= k < 9 ==> -2_000_000 <= #[trigger] sobel_weights(direction)[k] <= 2_000_000,
{
    let s = sobel_weights(direction);
    assert forall|k: int| 0 <= k < 9 implies -2_000_000 <= #[trigger] s[k] <= 2_000_000 by {
        if k == 0 {
        } else if k == 1 {
        } else if k == 2 {
        } else if k == 3 {
        } else if k == 4 {
        } else if k == 5 {
        } else if k == 6 {
        } else if k == 7 {
        } else {
            assert(k == 8);
        }
    }
}

/// A neighborhood sum over weights no larger than `c` in size stays
/// within `n * 255 * c`.
pub proof fn lemma_conv_prefix_bound(
    px: Seq<u8>,
    w: int,
    h: int,
    kh: int,
    kw: int,
    wts: Seq<i64>,
    ix: int,
    iy: int,
    n: int,
    c: int,
)
    requires
        0 <= n,
        0 <= c,
        forall|k: int| 0 <= k < n ==> -c <= #[trigger] wts[k] <= c,
    ensures
        -(n * 255 * c) <= conv_prefix(px, w, h, kh, kw, wts, ix, iy, n) <= n * 255 * c,
    decreases n,
{
    if n <= 0 {
    } else {
        lemma_conv_prefix_bound(px, w, h, kh, kw, wts, ix, iy, n - 1, c);
        let sample = sample_clamped(
            px,
            w,
            h,
            ix + (n - 1) % kw - kw / 2,
            iy + (n - 1) / kw - kh / 2,
        );
        assert(conv_term(px, w, h, kh, kw, wts, ix, iy, n - 1) == sample * wts[n - 1]);
        assert(0 <= sample <= 255);
        lemma_mul_abs_bound(sample, wts[n - 1] as int, 255, c);
        assert(conv_prefix(px, w, h, kh, kw, wts, ix, iy, n) == conv_prefix(
            px, w, h, kh, kw, wts, ix, iy, n - 1,
        ) + conv_term(px, w, h, kh, kw, wts, ix, iy, n - 1));
        assert((n - 1) * 255 * c + 255 * c == n * 255 * c) by (nonlinear_arith);
        assert(-((n - 1) * 255 * c) - 255 * c == -(n * 255 * c)) by (nonlinear_arith);
    }
}

/// On a constant image every neighborhood term is the constant times
/// its weight, whatever clamping did to the coordinates.
pub proof fn lemma_conv_term_constant(
    px: Seq<u8>,
    w: int,
    h: int,
    kh: int,
    kw: int,
    wts: Seq<i64>,
    ix: int,
    iy: int,
    k: int,
    c: u8,
)
    requires
        px.len() == w * h,
        1 <= w,
        1 <= h,
        forall|i: int| 0 <= i < px.len() ==> #[trigger] px[i] == c,
    ensures
        conv_term(px, w, h, kh, kw, wts, ix, iy, k) == (c as int) * wts[k],
{
    let cx = clamp_i(ix + k % kw - kw / 2, 0, w - 1);
    let cy = clamp_i(iy + k / kw - kh / 2, 0, h - 1);
    assert(0 <= cx < w);
    assert(0 <= cy < h);
    assert(0 <= cy * w + cx < w * h) by (nonlinear_arith)
        requires
            0 <= cx < w,
            0 <= cy < h,
    ;
    assert(px[cy * w + cx] == c);
}

impl Kernel {
    /// Shape and weight bounds under which the neighborhood sum cannot
    /// overflow a 64-bit accumulator.
    pub open spec fn wf(&self) -> bool {
        &&& self.content@.len() == (self.height as int) * (self.width as int)
        &&& self.height <= 64
        &&& self.width <= 64
        &&& forall|i: int|
            0 <= i < self.content@.len() ==> -1_000_000_000 <= #[trigger] self.content@[i]
                <= 1_000_000_000
    }

    pub fn new(height: u32, width: u32, content: Vec<i64>) -> (r: Kernel)
        ensures
            r.height == height,
            r.width == width,
            r.content@ == content@,
    {
        Kernel { height, width, content }
    }

    /// The two fixed 3x3 gradient kernels.
    pub fn sobel(direction: SobelDirection) -> (r: Kernel)
        ensures
            r.wf(),
            r.height == 3,
            r.width == 3,
            r.content@ == sobel_weights(direction),
    {
        match direction {
            SobelDirection::Horizontal => {
                let content: Vec<i64> = vec![
                    1_000_000i64, 2_000_000i64, 1_000_000i64,
                    0i64, 0i64, 0i64,
                    -1_000_000i64, -2_000_000i64, -1_000_000i64,
                ];
                let r = Kernel { height: 3, width: 3, content };
                proof {
                    assert(r.content@ =~= sobel_weights(direction));
                    lemma_nine_weights_bounded(r.content@);
                    assert((r.height as int) * (r.width as int) == 9) by (nonlinear_arith)
                        requires
                            r.height == 3 && r.width == 3,
                    ;
                }
                r
            },
            SobelDirection::Vertical => {
                let content: Vec<i64> = vec![
                    -1_000_000i64, 0i64, 1_000_000i64,
                    -2_000_000i64, 0i64, 2_000_000i64,
                    -1_000_000i64, 0i64, 1_000_000i64,
                ];
                let r = Kernel { height: 3, width: 3, content };
                proof {
                    assert(r.content@ =~= sobel_weights(direction));
                    lemma_nine_weights_bounded(r.content@);
                    assert((r.height as int) * (r.width as int) == 9) by (nonlinear_arith)
                        requires
                            r.height == 3 && r.width == 3,
                    ;
                }
                r
            },
        }
    }

    /// The weighted neighborhood sum at pixel `(ix, iy)` of `input`,
    /// with replicate-edge clamping, in millionths.
    #[verifier::loop_isolation(false)]
    pub fn apply_kernel_on_pixel(&self, input: &GrayBuffer, ix: u32, iy: u32) -> (r: i64)
        requires
            self.wf(),
            ix < gray_dims(*input).0,
            iy < gray_dims(*input).1,
        ensures
            r == conv_at(
                gray_pixels(*input),
                gray_dims(*input).0 as int,
                gray_dims(*input).1 as int,
                self.height as int,
                self.width as int,
                self.content@,
                ix as int,
                iy as int,
            ),
            -1_100_000_000_000_000 <= r <= 1_100_000_000_000_000,
    {
        let (w, h) = gray_dimensions(input);
        let kw = self.width;
        let kh = self.height;
        proof {
            assert((kh as int) * (kw as int) <= 4096) by (nonlinear_arith)
                requires
                    kh <= 64,
                    kw <= 64,
            ;
        }
        let total: u32 = kh * kw;
        let mut sum: i64 = 0;
        let mut k: u32 = 0;
        while k < total
            invariant
                k <= total,
                sum == conv_prefix(
                    gray_pixels(*input),
                    w as int,
                    h as int,
                    kh as int,
                    kw as int,
                    self.content@,
                    ix as int,
                    iy as int,
                    k as int,
                ),
                -(k as int) * 255_000_000_000 <= sum as int <= (k as int) * 255_000_000_000,
            decreases total - k,
        {
            let ky = k / kw;
            let kx = k % kw;
            let sx = ix as i64 + kx as i64 - (kw / 2) as i64;
            let sy = iy as i64 + ky as i64 - (kh / 2) as i64;
            let sxc: i64 = if sx < 0 {
                0
            } else if sx > (w - 1) as i64 {
                (w - 1) as i64
            } else {
                sx
            };
            let syc: i64 = if sy < 0 {
                0
            } else if sy > (h - 1) as i64 {
                (h - 1) as i64
            } else {
                sy
            };
            let px = gray_get(input, sxc as u32, syc as u32);
            let wt = self.content[k as usize];
            proof {
                lemma_mul_abs_bound(px as int, wt as int, 255, 1_000_000_000);
                assert((k as int) * 255_000_000_000 + 255_000_000_000 <= 4096
                    * 255_000_000_000);
            }
            let term: i64 = (px as i64) * wt;
            sum = sum + term;
            k = k + 1;
        }
        proof {
            assert((total as int) * 255_000_000_000 <= 4096 * 255_000_000_000);
        }
        sum
    }
}

} // verus!
