//! Executable dominant-color pipeline over a decoded pixel buffer:
//! sampling, weighted accumulation into clusters, selection of the
//! heaviest cluster, and reduction to one packed color.

use vstd::prelude::*;
use vstd::arithmetic::div_mod::*;
use vstd::arithmetic::mul::*;
use crate::model::{
    accum, bytes_per_pixel, cluster_average, dominant_color_spec, lemma_accum_bounds,
    lemma_sample_total_bound, lemma_winner_char, pixel_count, px_blue, px_green, px_key, px_red,
    px_weight, round_div, sample_total, stride_for, winner_upto, ClusterAcc, SAMPLE_CEILING,
};

verus! {

/// Running sums of one cluster, in machine integers. Weights are at most
/// 255 per sampled pixel and at most 100000 pixels are sampled, so `u64`
/// never overflows.
#[derive(Clone, Copy)]
pub struct Cluster {
    pub weight: u64,
    pub sum_r: u64,
    pub sum_g: u64,
    pub sum_b: u64,
}

/// The machine cluster holds exactly the modeled accumulator state.
pub open spec fn cluster_matches(c: Cluster, a: ClusterAcc) -> bool {
    &&& c.weight == a.w
    &&& c.sum_r == a.r
    &&& c.sum_g == a.g
    &&& c.sum_b == a.b
}

/// The winning index among the first `m` clusters of `cs`: the index with
/// the greatest positive weight, lowest index on ties, -1 when all weights
/// below `m` are zero.
pub open spec fn best_upto(cs: Seq<Cluster>, m: int) -> int
    decreases m,
{
    if m <= 0 {
        -1
    } else {
        let prev = best_upto(cs, m - 1);
        if cs[m - 1].weight > 0 && (prev == -1 || cs[m - 1].weight > cs[prev].weight) {
            m - 1
        } else {
            prev
        }
    }
}

/// When every cluster of `cs` matches the modeled accumulator state, the
/// selection over `cs` agrees with the modeled winner.
proof fn lemma_best_matches_winner(
    cs: Seq<Cluster>,
    pix: Seq<u8>,
    has_alpha: bool,
    s: int,
    t: int,
    m: int,
)
    requires
        t >= 0,
        cs.len() == 64,
        0 <= m <= 64,
        forall|k: int| 0 <= k < 64 ==> cluster_matches(#[trigger] cs[k], accum(pix, has_alpha, s, t, k)),
    ensures
        best_upto(cs, m) == winner_upto(pix, has_alpha, s, t, m),
    decreases m,
{
    if m > 0 {
        lemma_best_matches_winner(cs, pix, has_alpha, s, t, m - 1);
        lemma_winner_char(pix, has_alpha, s, t, m - 1);
        let prev = winner_upto(pix, has_alpha, s, t, m - 1);
        if prev != -1 {
            assert(cluster_matches(cs[prev], accum(pix, has_alpha, s, t, prev)));
        }
        assert(cluster_matches(cs[m - 1], accum(pix, has_alpha, s, t, m - 1)));
    }
}

/// The winning index is -1 or a valid index with positive weight.
proof fn lemma_best_upto_range(cs: Seq<Cluster>, m: int)
    requires
        m >= 0,
    ensures
        -1 <= best_upto(cs, m) < m,
        best_upto(cs, m) != -1 ==> cs[best_upto(cs, m)].weight > 0,
    decreases m,
{
    if m > 0 {
        lemma_best_upto_range(cs, m - 1);
    }
}

/// Fold every sampled pixel of the buffer into its cluster.
///
/// Returns the 64 clusters, each holding exactly the accumulated weight
/// and weighted channel sums of the sampled pixels bucketed to its key.
fn accumulate(pixels: &Vec<u8>, has_alpha: bool, stride: usize) -> (cs: Vec<Cluster>)
    requires
        stride == stride_for(pixel_count(pixels@, has_alpha)),
    ensures
        cs@.len() == 64,
        forall|k: int|
            0 <= k < 64 ==> cluster_matches(
                #[trigger] cs@[k],
                accum(
                    pixels@,
                    has_alpha,
                    stride as int,
                    sample_total(pixel_count(pixels@, has_alpha), stride as int),
                    k,
                ),
            ),
{
    let ghost pix = pixels@;
    let bpp: usize = if has_alpha {
        4
    } else {
        3
    };
    let n: usize = pixels.len() / bpp;
    let ghost t = sample_total(n as int, stride as int);
    proof {
        assert(n as int == pixel_count(pix, has_alpha));
        lemma_sample_total_bound(n as int);
        if n > 0 {
            lemma_div_pos_is_pos(n as int - 1, stride as int);
        }
        lemma_fundamental_div_mod(pixels@.len() as int, bpp as int);
        lemma_mod_division_less_than_divisor(pixels@.len() as int, bpp as int);
        assert(n * bpp <= pixels@.len()) by (nonlinear_arith)
            requires
                pixels@.len() as int == bpp as int * (n as int) + pixels@.len() as int % (
                bpp as int),
                pixels@.len() as int % (bpp as int) >= 0,
        ;
    }

    let mut cs: Vec<Cluster> = Vec::new();
    let mut z: usize = 0;
    while z < 64
        invariant
            cs@.len() == z,
            z <= 64,
            forall|k: int|
                0 <= k < z ==> #[trigger] cs@[k] == (Cluster {
                    weight: 0u64,
                    sum_r: 0u64,
                    sum_g: 0u64,
                    sum_b: 0u64,
                }),
        decreases 64 - z,
    {
        cs.push(Cluster { weight: 0, sum_r: 0, sum_g: 0, sum_b: 0 });
        z = z + 1;
    }

    let mut i: usize = 0;
    let ghost mut j: int = 0;
    while i < n
        invariant
            cs@.len() == 64,
            n as int == pixel_count(pix, has_alpha),
            pix == pixels@,
            stride == stride_for(n as int),
            stride >= 1,
            t == sample_total(n as int, stride as int),
            t <= 100000,
            bpp == bytes_per_pixel(has_alpha),
            n * bpp <= pixels.len(),
            0 <= j,
            0 <= t,
            i == j * stride,
            j <= t,
            j > 0 ==> (j - 1) * stride < n,
            forall|k: int|
                0 <= k < 64 ==> cluster_matches(
                    #[trigger] cs@[k],
                    accum(pix, has_alpha, stride as int, j, k),
                ),
        decreases t - j,
    {
        proof {
            // The current index is the j-th sample, so j < t and the pixel's
            // bytes lie inside the buffer.
            lemma_mul_is_commutative(j, stride as int);
            lemma_div_is_ordered(j * (stride as int), n as int - 1, stride as int);
            lemma_div_multiples_vanish(j, stride as int);
            assert(j <= (n as int - 1) / (stride as int));
            assert(j < t);
            lemma_mul_inequality(i as int + 1, n as int, bpp as int);
            assert((i as int + 1) * (bpp as int) == i as int * (bpp as int) + bpp as int)
                by (nonlinear_arith);
            lemma_mul_is_commutative(n as int, bpp as int);
            assert(i * bpp + bpp <= pixels@.len());
        }
        let base: usize = i * bpp;
        let r: u8 = pixels[base];
        let g: u8 = pixels[base + 1];
        let b: u8 = pixels[base + 2];
        let w: u8 = if has_alpha {
            pixels[base + 3]
        } else {
            255
        };
        proof {
            assert(r == px_red(pix, has_alpha, i as int));
            assert(g == px_green(pix, has_alpha, i as int));
            assert(b == px_blue(pix, has_alpha, i as int));
            assert(w == px_weight(pix, has_alpha, i as int));
        }
        let key: usize = (r / 64) as usize * 16 + (g / 64) as usize * 4 + (b / 64) as usize;
        proof {
            assert(key as int == px_key(pix, has_alpha, i as int));
            lemma_accum_bounds(pix, has_alpha, stride as int, j, key as int);
            assert(accum(pix, has_alpha, stride as int, j, key as int).w <= 255 * 100000)
                by (nonlinear_arith)
                requires
                    accum(pix, has_alpha, stride as int, j, key as int).w <= 255 * j,
                    j <= 100000,
            ;
            lemma_mul_upper_bound(r as int, 255, w as int, 255);
            lemma_mul_upper_bound(g as int, 255, w as int, 255);
            lemma_mul_upper_bound(b as int, 255, w as int, 255);
            lemma_mul_nonnegative(r as int, w as int);
            lemma_mul_nonnegative(g as int, w as int);
            lemma_mul_nonnegative(b as int, w as int);
        }
        let old_c: Cluster = cs[key];
        let new_c = Cluster {
            weight: old_c.weight + w as u64,
            sum_r: old_c.sum_r + (r as u64) * (w as u64),
            sum_g: old_c.sum_g + (g as u64) * (w as u64),
            sum_b: old_c.sum_b + (b as u64) * (w as u64),
        };
        cs.set(key, new_c);
        proof {
            assert(forall|k: int|
                0 <= k < 64 && k != key as int ==> cluster_matches(
                    #[trigger] cs@[k],
                    accum(pix, has_alpha, stride as int, j + 1, k),
                ));
            assert(cluster_matches(
                cs@[key as int],
                accum(pix, has_alpha, stride as int, j + 1, key as int),
            ));
        }
        proof {
            // The next index stays within machine range: the pixel count is
            // at most a third of the byte length, and the stride never
            // exceeds the pixel count.
            lemma_div_is_ordered_by_denominator(pixels@.len() as int, 3, bpp as int);
            lemma_div_is_ordered(pixels@.len() as int, usize::MAX as int, 3);
            assert(n as int <= usize::MAX as int / 3);
            if (n as int) / (SAMPLE_CEILING as int) >= 1 {
                lemma_div_nonincreasing(n as int, SAMPLE_CEILING as int);
            }
            assert(stride as int <= n as int);
            assert(i + stride == (j + 1) * stride) by (nonlinear_arith)
                requires
                    i == j * stride,
            ;
            j = j + 1;
        }
        i = i + stride;
    }
    proof {
        // On exit the sample count equals the modeled total: the last
        // processed index was below n and the next one is at or above it.
        if n > 0 {
            assert(j > 0);
            assert((j - 1) * (stride as int) + stride as int == j * (stride as int))
                by (nonlinear_arith);
            lemma_mul_is_commutative(j - 1, stride as int);
            lemma_fundamental_div_mod_converse(
                n as int - 1,
                stride as int,
                j - 1,
                (n as int - 1) - (j - 1) * (stride as int),
            );
            assert(j - 1 == (n as int - 1) / (stride as int));
        }
        assert(j == t);
    }
    cs
}

/// Select the heaviest cluster: the lowest index carrying the maximum
/// positive weight, or `None` when every cluster's weight is zero.
fn select_winner(cs: &Vec<Cluster>) -> (r: Option<usize>)
    requires
        cs@.len() == 64,
    ensures
        ({
            let b = best_upto(cs@, 64);
            if b == -1 {
                r is None
            } else {
                r == Some(b as usize)
            }
        }),
{
    let mut best: Option<usize> = None;
    let mut m: usize = 0;
    while m < 64
        invariant
            cs@.len() == 64,
            m <= 64,
            ({
                let b = best_upto(cs@, m as int);
                if b == -1 {
                    best is None
                } else {
                    best == Some(b as usize)
                }
            }),
        decreases 64 - m,
    {
        proof {
            lemma_best_upto_range(cs@, m as int);
            lemma_best_upto_range(cs@, m as int + 1);
        }
        let better: bool = match best {
            None => cs[m].weight > 0,
            Some(k) => cs[m].weight > 0 && cs[m].weight > cs[k].weight,
        };
        if better {
            best = Some(m);
        }
        m = m + 1;
    }
    proof {
        lemma_best_upto_range(cs@, 64);
    }
    best
}

/// Reduce a winning cluster to its packed weight-averaged color: divide
/// each channel sum by the total weight, rounding to nearest with halves
/// up, and pack the channels as `0xRRGGBB`.
fn reduce(c: &Cluster) -> (out: u32)
    requires
        c.weight > 0,
        c.weight <= 0x2000000,
        c.sum_r <= 255 * c.weight,
        c.sum_g <= 255 * c.weight,
        c.sum_b <= 255 * c.weight,
    ensures
        out as int == cluster_average(
            ClusterAcc { w: c.weight as int, r: c.sum_r as int, g: c.sum_g as int, b: c.sum_b as int },
        ),
        out <= 0xFFFFFF,
{
    let w: u64 = c.weight;
    let half: u64 = w / 2;
    proof {
        lemma_channel_average_bound(c.sum_r as int, w as int);
        lemma_channel_average_bound(c.sum_g as int, w as int);
        lemma_channel_average_bound(c.sum_b as int, w as int);
    }
    let avg_r: u64 = (c.sum_r + half) / w;
    let avg_g: u64 = (c.sum_g + half) / w;
    let avg_b: u64 = (c.sum_b + half) / w;
    (avg_r as u32) * 0x10000 + (avg_g as u32) * 0x100 + avg_b as u32
}

/// A rounded weighted average of byte-sized values is itself byte-sized.
proof fn lemma_channel_average_bound(sum: int, w: int)
    requires
        0 < w,
        0 <= sum <= 255 * w,
    ensures
        0 <= round_div(sum, w) <= 255,
{
    lemma_div_pos_is_pos(sum + w / 2, w);
    lemma_div_is_ordered(sum + w / 2, 255 * w + w / 2, w);
    lemma_fundamental_div_mod_converse(255 * w + w / 2, w, 255, w / 2);
}

/// Dominant color of a decoded pixel buffer.
///
/// The buffer holds 3 bytes per pixel (red, green, blue), or 4 when
/// `has_alpha` is set (red, green, blue, alpha). Returns the packed
/// weight-averaged color `0xRRGGBB` of the heaviest cluster, or `None`
/// when the buffer holds no pixel or every sampled pixel is fully
/// transparent.
pub fn dominant_pixel_color(pixels: &Vec<u8>, has_alpha: bool) -> (r: Option<u32>)
    ensures
        r == dominant_color_spec(pixels@, has_alpha),
        r matches Some(c) ==> c <= 0xFFFFFF,
{
    let ghost pix = pixels@;
    let bpp: usize = if has_alpha {
        4
    } else {
        3
    };
    let n: usize = pixels.len() / bpp;
    let q: usize = n / SAMPLE_CEILING;
    let stride: usize = if q < 1 {
        1
    } else {
        q
    };
    let ghost t = sample_total(n as int, stride as int);
    let cs = accumulate(pixels, has_alpha, stride);
    proof {
        if n > 0 {
            lemma_div_pos_is_pos(n as int - 1, stride as int);
        }
        lemma_best_matches_winner(cs@, pix, has_alpha, stride as int, t, 64);
        lemma_sample_total_bound(n as int);
        lemma_winner_char(pix, has_alpha, stride as int, t, 64);
    }
    match select_winner(&cs) {
        None => None,
        Some(k) => {
            proof {
                let b = winner_upto(pix, has_alpha, stride as int, t, 64);
                assert(b == k as int);
                lemma_accum_bounds(pix, has_alpha, stride as int, t, k as int);
                assert(accum(pix, has_alpha, stride as int, t, k as int).w <= 255 * 100000)
                    by (nonlinear_arith)
                    requires
                        accum(pix, has_alpha, stride as int, t, k as int).w <= 255 * t,
                        t <= 100000,
                ;
            }
            Some(reduce(&cs[k]))
        },
    }
}

} // verus!
