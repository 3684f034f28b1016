//! Properties of the dominant-color pipeline, stated over the model and
//! proved once for every input.

use vstd::prelude::*;
use vstd::arithmetic::div_mod::{
    lemma_div_pos_is_pos, lemma_fundamental_div_mod_converse,
};
use vstd::arithmetic::mul::lemma_mul_is_distributive_add;
use crate::decode::{decode_ok, decoded_has_alpha, decoded_pixels};
use crate::model::{
    accum, cluster_key_of, dominant_color_spec, lemma_accum_bounds, lemma_sampled_in_range,
    lemma_winner_char, pack_rgb, pixel_count, px_blue, px_green, px_key, px_red, px_weight,
    round_div, sample_total, stride_for, winner_upto, SAMPLE_CEILING,
};

verus! {

/// Whether sampled pixel `j` (the pixel at index `j*s`) shows exactly the
/// RGB color `(r, g, b)`.
pub open spec fn sample_is_color(
    pix: Seq<u8>,
    has_alpha: bool,
    s: int,
    j: int,
    r: u8,
    g: u8,
    b: u8,
) -> bool {
    &&& px_red(pix, has_alpha, j * s) == r
    &&& px_green(pix, has_alpha, j * s) == g
    &&& px_blue(pix, has_alpha, j * s) == b
}

/// Total weight of the first `j` sampled pixels showing exactly the RGB
/// color `(r, g, b)`.
pub open spec fn color_weight(
    pix: Seq<u8>,
    has_alpha: bool,
    s: int,
    j: int,
    r: u8,
    g: u8,
    b: u8,
) -> int
    decreases j,
{
    if j <= 0 {
        0
    } else {
        color_weight(pix, has_alpha, s, j - 1, r, g, b) + if sample_is_color(
            pix,
            has_alpha,
            s,
            j - 1,
            r,
            g,
            b,
        ) {
            px_weight(pix, has_alpha, (j - 1) * s) as int
        } else {
            0
        }
    }
}

/// Number of the first `j` sampled pixels showing exactly the RGB color
/// `(r, g, b)`.
pub open spec fn color_count(
    pix: Seq<u8>,
    has_alpha: bool,
    s: int,
    j: int,
    r: u8,
    g: u8,
    b: u8,
) -> int
    decreases j,
{
    if j <= 0 {
        0
    } else {
        color_count(pix, has_alpha, s, j - 1, r, g, b) + if sample_is_color(
            pix,
            has_alpha,
            s,
            j - 1,
            r,
            g,
            b,
        ) {
            1int
        } else {
            0
        }
    }
}

/// Without an alpha plane every pixel weighs 255, so the accumulated
/// weight of a color is 255 per occurrence.
proof fn lemma_color_weight_is_count(pix: Seq<u8>, s: int, j: int, r: u8, g: u8, b: u8)
    requires
        j >= 0,
    ensures
        color_weight(pix, false, s, j, r, g, b) == 255 * color_count(pix, false, s, j, r, g, b),
    decreases j,
{
    if j > 0 {
        lemma_color_weight_is_count(pix, s, j - 1, r, g, b);
    }
}

/// The weight of a color grows along the samples, and once a sampled
/// pixel shows the color, by at least that pixel's weight.
proof fn lemma_color_weight_lower_bound(
    pix: Seq<u8>,
    has_alpha: bool,
    s: int,
    j: int,
    j0: int,
    r: u8,
    g: u8,
    b: u8,
)
    requires
        0 <= j0 < j,
        sample_is_color(pix, has_alpha, s, j0, r, g, b),
    ensures
        color_weight(pix, has_alpha, s, j, r, g, b) >= px_weight(pix, has_alpha, j0 * s) as int,
    decreases j,
{
    lemma_color_weight_nonneg(pix, has_alpha, s, j - 1, r, g, b);
    if j0 < j - 1 {
        lemma_color_weight_lower_bound(pix, has_alpha, s, j - 1, j0, r, g, b);
    }
}

/// Accumulated color weight is never negative.
proof fn lemma_color_weight_nonneg(
    pix: Seq<u8>,
    has_alpha: bool,
    s: int,
    j: int,
    r: u8,
    g: u8,
    b: u8,
)
    ensures
        color_weight(pix, has_alpha, s, j, r, g, b) >= 0,
    decreases j,
{
    if j > 0 {
        lemma_color_weight_nonneg(pix, has_alpha, s, j - 1, r, g, b);
    }
}

/// When every sampled pixel shows one of two colors with distinct cluster
/// keys, the two colors' clusters hold exactly those colors' weights and
/// sums, and every other cluster stays empty.
proof fn lemma_two_color_accum(
    pix: Seq<u8>,
    has_alpha: bool,
    s: int,
    j: int,
    r1: u8,
    g1: u8,
    b1: u8,
    r2: u8,
    g2: u8,
    b2: u8,
)
    requires
        j >= 0,
        cluster_key_of(r1, g1, b1) != cluster_key_of(r2, g2, b2),
        forall|q: int|
            0 <= q < j ==> sample_is_color(pix, has_alpha, s, q, r1, g1, b1) || sample_is_color(
                pix,
                has_alpha,
                s,
                q,
                r2,
                g2,
                b2,
            ),
    ensures
        ({
            let k1 = cluster_key_of(r1, g1, b1);
            let w1 = color_weight(pix, has_alpha, s, j, r1, g1, b1);
            let a1 = accum(pix, has_alpha, s, j, k1);
            a1.w == w1 && a1.r == r1 as int * w1 && a1.g == g1 as int * w1 && a1.b == b1 as int
                * w1
        }),
        accum(pix, has_alpha, s, j, cluster_key_of(r2, g2, b2)).w == color_weight(
            pix,
            has_alpha,
            s,
            j,
            r2,
            g2,
            b2,
        ),
        forall|k: int|
            k != cluster_key_of(r1, g1, b1) && k != cluster_key_of(r2, g2, b2) ==> #[trigger]
                accum(pix, has_alpha, s, j, k).w == 0,
    decreases j,
{
    let k1 = cluster_key_of(r1, g1, b1);
    let k2 = cluster_key_of(r2, g2, b2);
    if j > 0 {
        lemma_two_color_accum(pix, has_alpha, s, j - 1, r1, g1, b1, r2, g2, b2);
        let i = (j - 1) * s;
        let wt = px_weight(pix, has_alpha, i) as int;
        let w1p = color_weight(pix, has_alpha, s, j - 1, r1, g1, b1);
        if sample_is_color(pix, has_alpha, s, j - 1, r1, g1, b1) {
            assert(px_key(pix, has_alpha, i) == k1);
            lemma_mul_is_distributive_add(r1 as int, w1p, wt);
            lemma_mul_is_distributive_add(g1 as int, w1p, wt);
            lemma_mul_is_distributive_add(b1 as int, w1p, wt);
        } else {
            assert(sample_is_color(pix, has_alpha, s, j - 1, r2, g2, b2));
            assert(px_key(pix, has_alpha, i) == k2);
        }
        assert forall|k: int| k != k1 && k != k2 implies #[trigger] accum(
            pix,
            has_alpha,
            s,
            j,
            k,
        ).w == 0 by {
            assert(accum(pix, has_alpha, s, j - 1, k).w == 0);
        }
    } else {
        assert forall|k: int| k != k1 && k != k2 implies #[trigger] accum(
            pix,
            has_alpha,
            s,
            j,
            k,
        ).w == 0 by {
            assert(accum(pix, has_alpha, s, j, k).w == 0);
        }
    }
}

/// The stride used for a decoded buffer.
pub open spec fn image_stride(pix: Seq<u8>, has_alpha: bool) -> int {
    stride_for(pixel_count(pix, has_alpha))
}

/// How many pixels of a decoded buffer are sampled.
pub open spec fn image_samples(pix: Seq<u8>, has_alpha: bool) -> int {
    sample_total(pixel_count(pix, has_alpha), image_stride(pix, has_alpha))
}

/// An exactly weighted average: when every contribution is the same value,
/// the rounded quotient returns that value with no error.
proof fn lemma_exact_average(c: int, w: int)
    requires
        0 <= c,
        0 < w,
    ensures
        round_div(c * w, w) == c,
{
    lemma_fundamental_div_mod_converse(c * w + w / 2, w, c, w / 2);
}

/// Alpha-weighting law: when every sampled pixel shows one of two RGB
/// colors whose cluster keys differ, the color whose total sampled weight
/// is greater is returned exactly — accumulated weight, not raw pixel
/// count, drives selection.
pub proof fn lemma_two_color_dominance(
    pix: Seq<u8>,
    has_alpha: bool,
    r1: u8,
    g1: u8,
    b1: u8,
    r2: u8,
    g2: u8,
    b2: u8,
)
    requires
        cluster_key_of(r1, g1, b1) != cluster_key_of(r2, g2, b2),
        forall|q: int|
            0 <= q < image_samples(pix, has_alpha) ==> sample_is_color(
                pix,
                has_alpha,
                image_stride(pix, has_alpha),
                q,
                r1,
                g1,
                b1,
            ) || sample_is_color(pix, has_alpha, image_stride(pix, has_alpha), q, r2, g2, b2),
        color_weight(
            pix,
            has_alpha,
            image_stride(pix, has_alpha),
            image_samples(pix, has_alpha),
            r1,
            g1,
            b1,
        ) > color_weight(
            pix,
            has_alpha,
            image_stride(pix, has_alpha),
            image_samples(pix, has_alpha),
            r2,
            g2,
            b2,
        ),
    ensures
        dominant_color_spec(pix, has_alpha) == Some(
            pack_rgb(r1 as int, g1 as int, b1 as int) as u32,
        ),
{
    let n = pixel_count(pix, has_alpha);
    let s = image_stride(pix, has_alpha);
    let t = image_samples(pix, has_alpha);
    let k1 = cluster_key_of(r1, g1, b1);
    let k2 = cluster_key_of(r2, g2, b2);
    let w1 = color_weight(pix, has_alpha, s, t, r1, g1, b1);
    if n > 0 {
        lemma_div_pos_is_pos(n - 1, s);
    }
    lemma_two_color_accum(pix, has_alpha, s, t, r1, g1, b1, r2, g2, b2);
    lemma_color_weight_nonneg(pix, has_alpha, s, t, r2, g2, b2);
    assert(accum(pix, has_alpha, s, t, k1).w == w1 && w1 > 0);
    lemma_winner_char(pix, has_alpha, s, t, 64);
    let b = winner_upto(pix, has_alpha, s, t, 64);
    assert(0 <= k1 < 64 && 0 <= k2 < 64);
    assert(b != -1) by {
        if b == -1 {
            assert(accum(pix, has_alpha, s, t, k1).w == 0);
        }
    }
    assert(b == k1) by {
        if b != k1 {
            assert(accum(pix, has_alpha, s, t, k1).w <= accum(pix, has_alpha, s, t, b).w);
            if b != k2 {
                assert(accum(pix, has_alpha, s, t, b).w == 0);
            }
        }
    }
    lemma_exact_average(r1 as int, w1);
    lemma_exact_average(g1 as int, w1);
    lemma_exact_average(b1 as int, w1);
}

/// Majority law for opaque images: when every sampled pixel shows one of
/// two RGB colors whose cluster keys differ and there is no alpha plane,
/// the color sampled more often is returned exactly. Below the sampling
/// ceiling the stride is one, so the sampled pixels are all pixels and
/// the larger region wins.
pub proof fn lemma_majority(
    pix: Seq<u8>,
    r1: u8,
    g1: u8,
    b1: u8,
    r2: u8,
    g2: u8,
    b2: u8,
)
    requires
        cluster_key_of(r1, g1, b1) != cluster_key_of(r2, g2, b2),
        forall|q: int|
            0 <= q < image_samples(pix, false) ==> sample_is_color(
                pix,
                false,
                image_stride(pix, false),
                q,
                r1,
                g1,
                b1,
            ) || sample_is_color(pix, false, image_stride(pix, false), q, r2, g2, b2),
        color_count(pix, false, image_stride(pix, false), image_samples(pix, false), r1, g1, b1)
            > color_count(
            pix,
            false,
            image_stride(pix, false),
            image_samples(pix, false),
            r2,
            g2,
            b2,
        ),
    ensures
        dominant_color_spec(pix, false) == Some(
            pack_rgb(r1 as int, g1 as int, b1 as int) as u32,
        ),
{
    let s = image_stride(pix, false);
    let t = image_samples(pix, false);
    let n = pixel_count(pix, false);
    if n > 0 {
        lemma_div_pos_is_pos(n - 1, s);
    }
    lemma_color_weight_is_count(pix, s, t, r1, g1, b1);
    lemma_color_weight_is_count(pix, s, t, r2, g2, b2);
    lemma_two_color_dominance(pix, false, r1, g1, b1, r2, g2, b2);
}

/// Whether pixel `i` shows exactly the RGB color `(r, g, b)`.
pub open spec fn pixel_is_color(pix: Seq<u8>, has_alpha: bool, i: int, r: u8, g: u8, b: u8) -> bool {
    &&& px_red(pix, has_alpha, i) == r
    &&& px_green(pix, has_alpha, i) == g
    &&& px_blue(pix, has_alpha, i) == b
}

/// Number of the first `m` pixels showing exactly the RGB color `(r, g, b)`.
pub open spec fn pixel_color_count(
    pix: Seq<u8>,
    has_alpha: bool,
    m: int,
    r: u8,
    g: u8,
    b: u8,
) -> int
    decreases m,
{
    if m <= 0 {
        0
    } else {
        pixel_color_count(pix, has_alpha, m - 1, r, g, b) + if pixel_is_color(
            pix,
            has_alpha,
            m - 1,
            r,
            g,
            b,
        ) {
            1int
        } else {
            0
        }
    }
}

/// With stride one, the sampled pixels are exactly the pixels, so the
/// sampled color count equals the raw color count.
proof fn lemma_count_at_stride_one(pix: Seq<u8>, has_alpha: bool, j: int, r: u8, g: u8, b: u8)
    ensures
        color_count(pix, has_alpha, 1, j, r, g, b) == pixel_color_count(pix, has_alpha, j, r, g, b),
    decreases j,
{
    if j > 0 {
        lemma_count_at_stride_one(pix, has_alpha, j - 1, r, g, b);
    }
}

/// Majority law below the sampling ceiling, over raw pixel counts: when
/// an opaque image at or below the ceiling is composed of two solid-color
/// regions whose colors fall in different clusters, the color of the
/// larger region is returned exactly. (At or below the ceiling the stride
/// is one, so every pixel is visited.)
pub proof fn lemma_majority_below_ceiling(
    pix: Seq<u8>,
    r1: u8,
    g1: u8,
    b1: u8,
    r2: u8,
    g2: u8,
    b2: u8,
)
    requires
        pixel_count(pix, false) <= SAMPLE_CEILING as int,
        cluster_key_of(r1, g1, b1) != cluster_key_of(r2, g2, b2),
        forall|i: int|
            0 <= i < pixel_count(pix, false) ==> pixel_is_color(pix, false, i, r1, g1, b1)
                || pixel_is_color(pix, false, i, r2, g2, b2),
        pixel_color_count(pix, false, pixel_count(pix, false), r1, g1, b1) > pixel_color_count(
            pix,
            false,
            pixel_count(pix, false),
            r2,
            g2,
            b2,
        ),
    ensures
        dominant_color_spec(pix, false) == Some(
            pack_rgb(r1 as int, g1 as int, b1 as int) as u32,
        ),
{
    let n = pixel_count(pix, false);
    let s = image_stride(pix, false);
    let t = image_samples(pix, false);
    assert(s == 1);
    assert(t == n);
    assert forall|q: int| 0 <= q < t implies sample_is_color(pix, false, s, q, r1, g1, b1)
        || sample_is_color(pix, false, s, q, r2, g2, b2) by {
        assert(q * 1 == q);
        assert(pixel_is_color(pix, false, q, r1, g1, b1) || pixel_is_color(
            pix,
            false,
            q,
            r2,
            g2,
            b2,
        ));
    }
    lemma_count_at_stride_one(pix, false, n, r1, g1, b1);
    lemma_count_at_stride_one(pix, false, n, r2, g2, b2);
    lemma_majority(pix, r1, g1, b1, r2, g2, b2);
}

/// A color never shown by any sampled pixel accumulates no weight.
proof fn lemma_absent_color_weight_zero(
    pix: Seq<u8>,
    has_alpha: bool,
    s: int,
    j: int,
    r: u8,
    g: u8,
    b: u8,
)
    requires
        forall|q: int| 0 <= q < j ==> !sample_is_color(pix, has_alpha, s, q, r, g, b),
    ensures
        color_weight(pix, has_alpha, s, j, r, g, b) == 0,
    decreases j,
{
    if j > 0 {
        lemma_absent_color_weight_zero(pix, has_alpha, s, j - 1, r, g, b);
    }
}

/// Solid-color law: when every pixel of the image shows the same RGB
/// color and at least one sampled pixel carries positive weight, that
/// color is returned exactly, with zero quantization error.
pub proof fn lemma_solid_color(pix: Seq<u8>, has_alpha: bool, r: u8, g: u8, b: u8)
    requires
        forall|i: int|
            0 <= i < pixel_count(pix, has_alpha) ==> px_red(pix, has_alpha, i) == r && px_green(
                pix,
                has_alpha,
                i,
            ) == g && px_blue(pix, has_alpha, i) == b,
        exists|q: int|
            0 <= q < image_samples(pix, has_alpha) && px_weight(
                pix,
                has_alpha,
                #[trigger] (q * image_stride(pix, has_alpha)),
            ) > 0,
    ensures
        dominant_color_spec(pix, has_alpha) == Some(
            pack_rgb(r as int, g as int, b as int) as u32,
        ),
{
    let n = pixel_count(pix, has_alpha);
    let s = image_stride(pix, has_alpha);
    let t = image_samples(pix, has_alpha);
    // A second color from a different cluster, never shown by any pixel.
    let (r2, g2, b2): (u8, u8, u8) = if cluster_key_of(r, g, b) == 0 {
        (255u8, 255u8, 255u8)
    } else {
        (0u8, 0u8, 0u8)
    };
    assert(cluster_key_of(r, g, b) != cluster_key_of(r2, g2, b2));
    assert forall|q: int| 0 <= q < t implies sample_is_color(pix, has_alpha, s, q, r, g, b) by {
        lemma_sampled_in_range(n, s, q);
    }
    assert forall|q: int| 0 <= q < t implies !sample_is_color(
        pix,
        has_alpha,
        s,
        q,
        r2,
        g2,
        b2,
    ) by {
        assert(sample_is_color(pix, has_alpha, s, q, r, g, b));
    }
    lemma_absent_color_weight_zero(pix, has_alpha, s, t, r2, g2, b2);
    let q0 = choose|q: int|
        0 <= q < t && px_weight(pix, has_alpha, #[trigger] (q * s)) > 0;
    lemma_color_weight_lower_bound(pix, has_alpha, s, t, q0, r, g, b);
    lemma_two_color_dominance(pix, has_alpha, r, g, b, r2, g2, b2);
}

/// Sampling-bound stability law: two solid-color images of the same color
/// yield the same output whatever their resolutions, in particular when
/// the pixel counts far exceed the sampling ceiling.
pub proof fn lemma_solid_stability(
    pix1: Seq<u8>,
    has_alpha1: bool,
    pix2: Seq<u8>,
    has_alpha2: bool,
    r: u8,
    g: u8,
    b: u8,
)
    requires
        forall|i: int|
            0 <= i < pixel_count(pix1, has_alpha1) ==> px_red(pix1, has_alpha1, i) == r
                && px_green(pix1, has_alpha1, i) == g && px_blue(pix1, has_alpha1, i) == b,
        exists|q: int|
            0 <= q < image_samples(pix1, has_alpha1) && px_weight(
                pix1,
                has_alpha1,
                #[trigger] (q * image_stride(pix1, has_alpha1)),
            ) > 0,
        forall|i: int|
            0 <= i < pixel_count(pix2, has_alpha2) ==> px_red(pix2, has_alpha2, i) == r
                && px_green(pix2, has_alpha2, i) == g && px_blue(pix2, has_alpha2, i) == b,
        exists|q: int|
            0 <= q < image_samples(pix2, has_alpha2) && px_weight(
                pix2,
                has_alpha2,
                #[trigger] (q * image_stride(pix2, has_alpha2)),
            ) > 0,
    ensures
        dominant_color_spec(pix1, has_alpha1) == dominant_color_spec(pix2, has_alpha2),
        dominant_color_spec(pix1, has_alpha1) == Some(
            pack_rgb(r as int, g as int, b as int) as u32,
        ),
{
    lemma_solid_color(pix1, has_alpha1, r, g, b);
    lemma_solid_color(pix2, has_alpha2, r, g, b);
}

/// When every sampled pixel is fully transparent, every cluster stays
/// weightless.
proof fn lemma_zero_weights_accum(pix: Seq<u8>, has_alpha: bool, s: int, j: int)
    requires
        j >= 0,
        forall|q: int| 0 <= q < j ==> px_weight(pix, has_alpha, #[trigger] (q * s)) == 0,
    ensures
        forall|k: int| #[trigger] accum(pix, has_alpha, s, j, k).w == 0,
    decreases j,
{
    if j > 0 {
        lemma_zero_weights_accum(pix, has_alpha, s, j - 1);
        assert forall|k: int| #[trigger] accum(pix, has_alpha, s, j, k).w == 0 by {
            assert(accum(pix, has_alpha, s, j - 1, k).w == 0);
            assert(px_weight(pix, has_alpha, (j - 1) * s) == 0);
        }
    }
}

/// A cluster's weight is at least the weight of any sampled pixel whose
/// key it carries.
proof fn lemma_accum_weight_lower_bound(pix: Seq<u8>, has_alpha: bool, s: int, t: int, q: int)
    requires
        0 <= q < t,
    ensures
        accum(pix, has_alpha, s, t, px_key(pix, has_alpha, q * s)).w >= px_weight(
            pix,
            has_alpha,
            q * s,
        ) as int,
    decreases t,
{
    lemma_accum_bounds(pix, has_alpha, s, t - 1, px_key(pix, has_alpha, q * s));
    if q < t - 1 {
        lemma_accum_weight_lower_bound(pix, has_alpha, s, t - 1, q);
    }
}

/// Failure law: no dominant color exists exactly when no sampled pixel
/// carries positive weight — the image has no pixels, or every sampled
/// pixel is fully transparent.
pub proof fn lemma_no_dominant_iff_all_transparent(pix: Seq<u8>, has_alpha: bool)
    ensures
        dominant_color_spec(pix, has_alpha) is None <==> forall|q: int|
            0 <= q < image_samples(pix, has_alpha) ==> px_weight(
                pix,
                has_alpha,
                #[trigger] (q * image_stride(pix, has_alpha)),
            ) == 0,
{
    let n = pixel_count(pix, has_alpha);
    let s = image_stride(pix, has_alpha);
    let t = image_samples(pix, has_alpha);
    if n > 0 {
        lemma_div_pos_is_pos(n - 1, s);
    }
    lemma_winner_char(pix, has_alpha, s, t, 64);
    let b = winner_upto(pix, has_alpha, s, t, 64);
    if forall|q: int| 0 <= q < t ==> px_weight(pix, has_alpha, #[trigger] (q * s)) == 0 {
        lemma_zero_weights_accum(pix, has_alpha, s, t);
        if b != -1 {
            assert(accum(pix, has_alpha, s, t, b).w == 0);
        }
    } else {
        let q0 = choose|q: int| 0 <= q < t && px_weight(pix, has_alpha, #[trigger] (q * s)) != 0;
        lemma_accum_weight_lower_bound(pix, has_alpha, s, t, q0);
        let k0 = px_key(pix, has_alpha, q0 * s);
        assert(0 <= k0 < 64);
        assert(accum(pix, has_alpha, s, t, k0).w > 0);
        assert(b != -1);
    }
}

/// Failure law at the byte level: the decode failure is returned exactly
/// on the inputs the codec rejects, and the empty-input failure exactly
/// when the decoded image has no sampled pixel with positive weight.
pub proof fn lemma_failure_scenarios(bytes: Seq<u8>)
    ensures
        crate::outcome_spec(bytes) == Err::<u32, crate::DominantColorError>(
            crate::DominantColorError::DecodeFailure,
        ) <==> !decode_ok(bytes),
        decode_ok(bytes) ==> (crate::outcome_spec(bytes) == Err::<u32, crate::DominantColorError>(
            crate::DominantColorError::EmptyInputFailure,
        ) <==> forall|q: int|
            0 <= q < image_samples(decoded_pixels(bytes), decoded_has_alpha(bytes))
                ==> px_weight(
                decoded_pixels(bytes),
                decoded_has_alpha(bytes),
                #[trigger] (q * image_stride(decoded_pixels(bytes), decoded_has_alpha(bytes))),
            ) == 0),
{
    lemma_no_dominant_iff_all_transparent(decoded_pixels(bytes), decoded_has_alpha(bytes));
}

/// Determinism law: the outcome a call must return is a function of the
/// input bytes alone, so any two results owed for the same byte sequence
/// are equal.
pub proof fn lemma_deterministic(
    bytes: Seq<u8>,
    r1: Result<u32, crate::DominantColorError>,
    r2: Result<u32, crate::DominantColorError>,
)
    requires
        r1 == crate::outcome_spec(bytes),
        r2 == crate::outcome_spec(bytes),
    ensures
        r1 == r2,
{
}

} // verus!

