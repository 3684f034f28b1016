//! Mathematical model of the dominant-color pipeline.
//!
//! The decoded image is a flat byte sequence holding either 3 bytes per
//! pixel (red, green, blue) or 4 bytes per pixel (red, green, blue, alpha).
//! A pixel's weight is its alpha value, or 255 when no alpha plane exists,
//! so a fully opaque pixel weighs 255 and a fully transparent one weighs 0.
//! Pixels are sampled at a fixed stride so that the number of inspected
//! pixels stays bounded by a constant regardless of image size, each
//! sampled pixel is bucketed by the top two bits of each channel, and the
//! bucket with the greatest accumulated weight determines the output.

use vstd::prelude::*;
use vstd::arithmetic::div_mod::*;
use vstd::arithmetic::mul::*;

verus! {

/// At most this many pixels are ever inspected for one image.
pub const SAMPLE_CEILING: usize = 50000;

/// Number of bytes one pixel occupies in the decoded buffer.
pub open spec fn bytes_per_pixel(has_alpha: bool) -> int {
    if has_alpha {
        4
    } else {
        3
    }
}

/// How many whole pixels the decoded buffer holds.
pub open spec fn pixel_count(pix: Seq<u8>, has_alpha: bool) -> int {
    pix.len() as int / bytes_per_pixel(has_alpha)
}

/// Stride between inspected pixels: 1 while the image is at or below the
/// ceiling, `n / SAMPLE_CEILING` above it.
pub open spec fn stride_for(n: int) -> int {
    if n / (SAMPLE_CEILING as int) < 1 {
        1
    } else {
        n / (SAMPLE_CEILING as int)
    }
}

/// Number of indices `0, s, 2s, ...` that lie below `n`.
pub open spec fn sample_total(n: int, s: int) -> int {
    if n <= 0 {
        0
    } else {
        (n - 1) / s + 1
    }
}

/// Red channel of pixel `i`.
pub open spec fn px_red(pix: Seq<u8>, has_alpha: bool, i: int) -> u8 {
    pix[i * bytes_per_pixel(has_alpha)]
}

/// Green channel of pixel `i`.
pub open spec fn px_green(pix: Seq<u8>, has_alpha: bool, i: int) -> u8 {
    pix[i * bytes_per_pixel(has_alpha) + 1]
}

/// Blue channel of pixel `i`.
pub open spec fn px_blue(pix: Seq<u8>, has_alpha: bool, i: int) -> u8 {
    pix[i * bytes_per_pixel(has_alpha) + 2]
}

/// Weight of pixel `i`: its alpha value, or 255 when no alpha plane exists.
pub open spec fn px_weight(pix: Seq<u8>, has_alpha: bool, i: int) -> u8 {
    if has_alpha {
        pix[i * 4 + 3]
    } else {
        255
    }
}

/// Top two bits of a channel value, as a number in 0..4.
pub open spec fn quantize(c: u8) -> int {
    c as int / 64
}

/// Cluster key of an RGB color: the three quantized channels packed into
/// a number in 0..64.
pub open spec fn cluster_key_of(r: u8, g: u8, b: u8) -> int {
    quantize(r) * 16 + quantize(g) * 4 + quantize(b)
}

/// Cluster key of pixel `i`.
pub open spec fn px_key(pix: Seq<u8>, has_alpha: bool, i: int) -> int {
    cluster_key_of(
        px_red(pix, has_alpha, i),
        px_green(pix, has_alpha, i),
        px_blue(pix, has_alpha, i),
    )
}

/// Running state of one cluster: total accumulated weight and the three
/// weighted channel sums.
pub ghost struct ClusterAcc {
    pub w: int,
    pub r: int,
    pub g: int,
    pub b: int,
}

/// State of cluster `k` after the first `j` sampled pixels (those at
/// indices `0, s, ..., (j-1)*s`) have been folded in: the weights of the
/// sampled pixels whose key is `k`, summed, and their channel values,
/// each scaled by that pixel's weight and summed.
pub open spec fn accum(pix: Seq<u8>, has_alpha: bool, s: int, j: int, k: int) -> ClusterAcc
    decreases j,
{
    if j <= 0 {
        ClusterAcc { w: 0, r: 0, g: 0, b: 0 }
    } else {
        let prev = accum(pix, has_alpha, s, j - 1, k);
        let i = (j - 1) * s;
        if px_key(pix, has_alpha, i) == k {
            let wt = px_weight(pix, has_alpha, i) as int;
            ClusterAcc {
                w: prev.w + wt,
                r: prev.r + px_red(pix, has_alpha, i) as int * wt,
                g: prev.g + px_green(pix, has_alpha, i) as int * wt,
                b: prev.b + px_blue(pix, has_alpha, i) as int * wt,
            }
        } else {
            prev
        }
    }
}

/// The winning key among `0..m` after `t` sampled pixels: the key with the
/// greatest accumulated weight among those with positive weight, the
/// lowest such key on a tie, and -1 when every key's weight is zero.
pub open spec fn winner_upto(pix: Seq<u8>, has_alpha: bool, s: int, t: int, m: int) -> int
    decreases m,
{
    if m <= 0 {
        -1
    } else {
        let prev = winner_upto(pix, has_alpha, s, t, m - 1);
        let wk = accum(pix, has_alpha, s, t, m - 1).w;
        if wk > 0 && (prev == -1 || wk > accum(pix, has_alpha, s, t, prev).w) {
            m - 1
        } else {
            prev
        }
    }
}

/// Integer division rounded to nearest, halves rounding up.
pub open spec fn round_div(num: int, den: int) -> int {
    (num + den / 2) / den
}

/// RGB channels packed as `0xRRGGBB`.
pub open spec fn pack_rgb(r: int, g: int, b: int) -> int {
    r * 0x10000 + g * 0x100 + b
}

/// Weight-averaged color of a cluster, packed. Meaningful only when the
/// cluster's weight is positive.
pub open spec fn cluster_average(c: ClusterAcc) -> int {
    pack_rgb(round_div(c.r, c.w), round_div(c.g, c.w), round_div(c.b, c.w))
}

/// The dominant color of a decoded pixel buffer: `None` when no cluster
/// gathered positive weight (no pixels, or only fully transparent ones),
/// otherwise the packed weight-averaged color of the winning cluster.
pub open spec fn dominant_color_spec(pix: Seq<u8>, has_alpha: bool) -> Option<u32> {
    let n = pixel_count(pix, has_alpha);
    let s = stride_for(n);
    let t = sample_total(n, s);
    let k = winner_upto(pix, has_alpha, s, t, 64);
    if k == -1 {
        None
    } else {
        Some(cluster_average(accum(pix, has_alpha, s, t, k)) as u32)
    }
}

/// The accumulated weight of a cluster never exceeds 255 per sampled
/// pixel, each channel sum never exceeds 255 per unit of weight, and all
/// components are nonnegative.
pub proof fn lemma_accum_bounds(pix: Seq<u8>, has_alpha: bool, s: int, j: int, k: int)
    requires
        j >= 0,
    ensures
        0 <= accum(pix, has_alpha, s, j, k).w <= 255 * j,
        0 <= accum(pix, has_alpha, s, j, k).r <= 255 * accum(pix, has_alpha, s, j, k).w,
        0 <= accum(pix, has_alpha, s, j, k).g <= 255 * accum(pix, has_alpha, s, j, k).w,
        0 <= accum(pix, has_alpha, s, j, k).b <= 255 * accum(pix, has_alpha, s, j, k).w,
    decreases j,
{
    if j <= 0 {
    } else {
        lemma_accum_bounds(pix, has_alpha, s, j - 1, k);
        let i = (j - 1) * s;
        if px_key(pix, has_alpha, i) == k {
            let wt = px_weight(pix, has_alpha, i) as int;
            lemma_mul_inequality(px_red(pix, has_alpha, i) as int, 255, wt);
            lemma_mul_inequality(px_green(pix, has_alpha, i) as int, 255, wt);
            lemma_mul_inequality(px_blue(pix, has_alpha, i) as int, 255, wt);
            lemma_mul_nonnegative(px_red(pix, has_alpha, i) as int, wt);
            lemma_mul_nonnegative(px_green(pix, has_alpha, i) as int, wt);
            lemma_mul_nonnegative(px_blue(pix, has_alpha, i) as int, wt);
            let prev = accum(pix, has_alpha, s, j - 1, k);
            assert(255 * (prev.w + wt) == 255 * prev.w + 255 * wt) by (nonlinear_arith);
            assert(255 * j == 255 * (j - 1) + 255) by (nonlinear_arith);
        } else {
            assert(255 * j >= 255 * (j - 1)) by (nonlinear_arith);
        }
    }
}

/// With the stride chosen for the image, at most 100000 pixels are ever
/// sampled: below the ceiling every pixel is visited, and above it the
/// stride keeps the sample count under twice the ceiling.
pub proof fn lemma_sample_total_bound(n: int)
    requires
        n >= 0,
    ensures
        sample_total(n, stride_for(n)) <= 100000,
{
    let c = SAMPLE_CEILING as int;
    let s = stride_for(n);
    if n <= 0 {
    } else if n / c < 1 {
        lemma_small_div_converse(n, c);
        assert(sample_total(n, 1) == (n - 1) / 1 + 1);
        assert((n - 1) / 1 == n - 1);
    } else {
        lemma_fundamental_div_mod(n, c);
        lemma_mod_division_less_than_divisor(n, c);
        assert(n < (s + 1) * c) by (nonlinear_arith)
            requires
                n == c * s + n % c,
                n % c < c,
        ;
        assert(n - 1 < s * 100000) by (nonlinear_arith)
            requires
                n < (s + 1) * c,
                s >= 1,
                c == 50000,
        ;
        lemma_multiply_divide_lt(n - 1, s, 100000);
    }
}

/// Every sampled index lies inside the pixel range.
pub proof fn lemma_sampled_in_range(n: int, s: int, j: int)
    requires
        s >= 1,
        0 <= j < sample_total(n, s),
    ensures
        0 <= j * s <= n - 1,
{
    lemma_mul_nonnegative(j, s);
    assert(j <= (n - 1) / s);
    lemma_fundamental_div_mod(n - 1, s);
    lemma_mod_division_less_than_divisor(n - 1, s);
    assert(j * s <= ((n - 1) / s) * s) by (nonlinear_arith)
        requires
            j <= (n - 1) / s,
            s >= 1,
    ;
    assert(((n - 1) / s) * s <= n - 1) by (nonlinear_arith)
        requires
            n - 1 == s * ((n - 1) / s) + (n - 1) % s,
            (n - 1) % s >= 0,
    ;
}

/// Characterization of the winner: either every key below `m` has zero
/// weight and the winner is -1, or the winner is the lowest key below `m`
/// carrying the maximum positive weight.
pub proof fn lemma_winner_char(pix: Seq<u8>, has_alpha: bool, s: int, t: int, m: int)
    requires
        t >= 0,
        0 <= m <= 64,
    ensures
        ({
            let b = winner_upto(pix, has_alpha, s, t, m);
            ||| (b == -1 && forall|k: int|
                0 <= k < m ==> #[trigger] accum(pix, has_alpha, s, t, k).w == 0)
            ||| (0 <= b < m && accum(pix, has_alpha, s, t, b).w > 0 && (forall|k: int|
                0 <= k < m ==> #[trigger] accum(pix, has_alpha, s, t, k).w <= accum(
                    pix,
                    has_alpha,
                    s,
                    t,
                    b,
                ).w) && (forall|k: int|
                0 <= k < b ==> #[trigger] accum(pix, has_alpha, s, t, k).w < accum(
                    pix,
                    has_alpha,
                    s,
                    t,
                    b,
                ).w))
        }),
    decreases m,
{
    if m <= 0 {
    } else {
        lemma_winner_char(pix, has_alpha, s, t, m - 1);
        lemma_accum_bounds(pix, has_alpha, s, t, m - 1);
    }
}

} // verus!
