//! The mathematical model of the pixel buffer and of the point effects:
//! how byte indices relate to pixel coordinates, and, for each effect, a
//! spec function giving the whole new buffer in terms of the old one.

use vstd::arithmetic::div_mod::{
    lemma_div_is_ordered, lemma_div_multiples_vanish, lemma_fundamental_div_mod,
    lemma_fundamental_div_mod_converse, lemma_mod_bound,
};
use vstd::arithmetic::mul::{lemma_mul_inequality, lemma_mul_is_commutative, lemma_mul_nonnegative};
use vstd::prelude::*;

verus! {

/// Number of bytes in a buffer of `w * h` RGBA pixels.
pub open spec fn buf_len(w: u32, h: u32) -> int {
    w * h * 4
}

/// Byte index of channel `ch` of the pixel in column `x`, row `y` of a
/// row-major RGBA buffer that is `w` pixels wide.
pub open spec fn pix_at(w: u32, x: int, y: int, ch: int) -> int {
    4 * (y * w + x) + ch
}

/// Column of the pixel that byte `j` of a buffer `w` pixels wide belongs to.
pub open spec fn col_of(w: u32, j: int) -> int {
    (j / 4) % (w as int)
}

/// Row of the pixel that byte `j` of a buffer `w` pixels wide belongs to.
pub open spec fn row_of(w: u32, j: int) -> int {
    (j / 4) / (w as int)
}

/// Channel (0 = R, 1 = G, 2 = B, 3 = A) that byte `j` holds.
pub open spec fn chan_of(j: int) -> int {
    j % 4
}

/// The addressing functions invert `pix_at` on in-range coordinates.
pub proof fn lemma_pix_at_inverse(w: u32, x: int, y: int, ch: int)
    requires
        1 <= w,
        0 <= x < w,
        0 <= y,
        0 <= ch < 4,
    ensures
        chan_of(pix_at(w, x, y, ch)) == ch,
        col_of(w, pix_at(w, x, y, ch)) == x,
        row_of(w, pix_at(w, x, y, ch)) == y,
{
    let p = y * w + x;
    lemma_mul_nonnegative(y, w as int);
    lemma_fundamental_div_mod_converse(4 * p + ch, 4, p, ch);
    lemma_fundamental_div_mod_converse(p, w as int, y, x);
}

/// `pix_at` lands inside the buffer whenever the coordinates are in range.
pub proof fn lemma_pix_at_bounds(w: u32, h: u32, x: int, y: int, ch: int)
    requires
        1 <= w,
        0 <= x < w,
        0 <= y < h,
        0 <= ch < 4,
    ensures
        0 <= pix_at(w, x, y, ch),
        pix_at(w, x, y, ch) + (4 - ch) <= buf_len(w, h),
{
    lemma_mul_nonnegative(y, w as int);
    lemma_mul_inequality(y, h - 1, w as int);
    assert(w * h * 4 == 4 * ((h - 1) * (w as int) + (w as int) - 1) + 4) by (nonlinear_arith);
}

/// Every byte of the buffer belongs to exactly one in-range coordinate triple.
pub proof fn lemma_byte_decompose(w: u32, h: u32, j: int)
    requires
        1 <= w,
        0 <= j < buf_len(w, h),
    ensures
        0 <= chan_of(j) < 4,
        0 <= col_of(w, j) < w,
        0 <= row_of(w, j) < h,
        pix_at(w, col_of(w, j), row_of(w, j), chan_of(j)) == j,
{
    broadcast use lemma_mul_is_commutative;

    let q = j / 4;
    lemma_fundamental_div_mod(j, 4);
    lemma_mod_bound(j, 4);
    assert(q < w * h);
    assert(w * h - 1 == (h - 1) * (w as int) + ((w as int) - 1)) by (nonlinear_arith);
    lemma_fundamental_div_mod_converse(w * h - 1, w as int, h - 1, (w as int) - 1);
    lemma_div_is_ordered(q, w * h - 1, w as int);
    lemma_fundamental_div_mod(q, w as int);
    lemma_mod_bound(q, w as int);
}

/// Solarize rule for a red value: values below 200 are reflected about it.
pub open spec fn solarize_val(v: u8) -> u8 {
    if v < 200 {
        (200 - v) as u8
    } else {
        v
    }
}

/// The buffer after solarizing: each pixel's red channel goes through
/// `solarize_val`; the other channels are kept.
pub open spec fn solarize_seq(s: Seq<u8>) -> Seq<u8> {
    Seq::new(s.len(), |j: int| if j % 4 == 0 { solarize_val(s[j]) } else { s[j] })
}

/// Addition of a channel value and an increment, topping out at 255.
pub open spec fn sat_add_255(v: u8, d: u8) -> u8 {
    if v + d <= 255 {
        (v + d) as u8
    } else {
        255u8
    }
}

/// The buffer after a brightness increase: R, G and B of every pixel
/// saturate-add the increment; alpha is kept.
pub open spec fn brightness_seq(s: Seq<u8>, d: u8) -> Seq<u8> {
    Seq::new(s.len(), |j: int| if j % 4 < 3 { sat_add_255(s[j], d) } else { s[j] })
}

/// Tint rule for one channel: the offset is added exactly while the sum
/// stays below 255, and the channel is pinned at 255 from there on.
pub open spec fn tint_val(v: u8, off: u32) -> u8 {
    if v + off < 255 {
        (v + off) as u8
    } else {
        255u8
    }
}

/// The buffer after tinting: R, G and B of every pixel gain their own
/// offsets under `tint_val`; alpha is kept.
pub open spec fn tint_seq(s: Seq<u8>, r_off: u32, g_off: u32, b_off: u32) -> Seq<u8> {
    Seq::new(
        s.len(),
        |j: int|
            if j % 4 == 0 {
                tint_val(s[j], r_off)
            } else if j % 4 == 1 {
                tint_val(s[j], g_off)
            } else if j % 4 == 2 {
                tint_val(s[j], b_off)
            } else {
                s[j]
            },
    )
}

/// Collapse of one channel value to 0 or 255 at the midpoint 128.
pub open spec fn threshold_128(v: u8) -> u8 {
    if v > 128 {
        255u8
    } else {
        0u8
    }
}

/// The buffer after the primary-colour effect: R, G and B of every pixel
/// collapse to 0 or 255, each according to the first pixel's value of that
/// channel (bytes 0, 1 and 2 of the buffer); alpha is kept.
pub open spec fn primary_seq(s: Seq<u8>) -> Seq<u8> {
    Seq::new(s.len(), |j: int| if j % 4 < 3 { threshold_128(s[j % 4]) } else { s[j] })
}

/// Squared Euclidean distance between two colours' RGB components.
pub open spec fn rgb_sq_distance(a: crate::Rgb, b: crate::Rgb) -> int {
    (a.r - b.r) * (a.r - b.r) + (a.g - b.g) * (a.g - b.g) + (a.b - b.b) * (a.b - b.b)
}

/// Squared RGB distance between a pixel's colour and pure cyan (0, 255, 255).
pub open spec fn cyan_sq_distance(r: u8, g: u8, b: u8) -> int {
    rgb_sq_distance(crate::Rgb { r: 0, g: 255, b: 255 }, crate::Rgb { r, g, b })
}

/// Colorize rule for one channel of a pixel whose colour lies strictly
/// within distance 220 of cyan: red and blue are halved, green grows by a
/// quarter (saturating at 255). Pixels at or beyond the threshold are kept.
pub open spec fn colorize_pix(r: u8, g: u8, b: u8, ch: int) -> u8 {
    if cyan_sq_distance(r, g, b) < 48400 {
        if ch == 0 {
            (r / 2) as u8
        } else if ch == 1 {
            if 5 * g / 4 <= 255 {
                (5 * g / 4) as u8
            } else {
                255u8
            }
        } else {
            (b / 2) as u8
        }
    } else {
        if ch == 0 {
            r
        } else if ch == 1 {
            g
        } else {
            b
        }
    }
}

/// Where the single-channel offset writes: pixels inside the fixed
/// ten-pixel margin whose source pixel, `off` columns right and `off` rows
/// down, lies strictly inside the one-pixel border.
pub open spec fn offset_writes(w: u32, h: u32, off: u32, j: int) -> bool {
    col_of(w, j) < w - 10 && row_of(w, j) < h - 10 && col_of(w, j) + off < w - 1 && row_of(w, j)
        + off < h - 1
}

/// The buffer after a single-channel offset: channel `c` of each written
/// pixel takes channel `c` of its source pixel; every other byte is kept.
pub open spec fn offset_seq(s: Seq<u8>, w: u32, h: u32, c: int, off: u32) -> Seq<u8> {
    Seq::new(
        s.len(),
        |j: int|
            if chan_of(j) == c && offset_writes(w, h, off, j) {
                s[pix_at(w, col_of(w, j) + off, row_of(w, j) + off, c)]
            } else {
                s[j]
            },
    )
}

/// Guard of the dual offset's first channel: the source pixel, `off`
/// columns right, passes the same bound check the single offset uses.
pub open spec fn dual_c1_writes(w: u32, h: u32, off: u32, x: int, y: int) -> bool {
    x + off < w - 1 && y + off < h - 1
}

/// Guard of the dual offset's second channel: the pixel lies strictly
/// beyond `off` in both coordinates.
pub open spec fn dual_c2_guard(off: u32, x: int, y: int) -> bool {
    x > off && y > off
}

/// Value of channel `c2` of pixel `(x, y)` after the dual offset. Rows are
/// rewritten left to right, so a copy from `off` columns left reads an
/// already rewritten pixel: the value chains leftwards until the guard
/// fails, and the pixel it lands on keeps either its own first-channel copy
/// (when the two channels coincide) or its original value.
pub open spec fn dual_c2_val(s: Seq<u8>, w: u32, h: u32, off: u32, c1: int, c2: int, x: int, y: int) -> u8
    decreases x,
{
    if off > 0 && dual_c2_guard(off, x, y) {
        dual_c2_val(s, w, h, off, c1, c2, x - off, y)
    } else if c2 == c1 && dual_c1_writes(w, h, off, x, y) {
        s[pix_at(w, x + off, y, c1)]
    } else {
        s[pix_at(w, x, y, c2)]
    }
}

/// The buffer after the dual offset: channel `c1` copies from `off` columns
/// right (bounds permitting), channel `c2` copies from `off` columns left
/// through `dual_c2_val`, the second copy winning where the channels
/// coincide; every other byte is kept.
pub open spec fn multiple_offsets_seq(s: Seq<u8>, w: u32, h: u32, off: u32, c1: int, c2: int) -> Seq<u8> {
    Seq::new(
        s.len(),
        |j: int|
            {
                let x = col_of(w, j);
                let y = row_of(w, j);
                let ch = chan_of(j);
                if ch == c2 && dual_c2_guard(off, x, y) {
                    dual_c2_val(s, w, h, off, c1, c2, x, y)
                } else if ch == c1 && dual_c1_writes(w, h, off, x, y) {
                    s[pix_at(w, x + off, y, c1)]
                } else {
                    s[j]
                }
            },
    )
}

/// Scaled luma of a pixel: the perceptual weights 0.299, 0.587 and 0.114
/// written over the common denominator 1000.
pub open spec fn luma_1000(s: Seq<u8>, w: u32, x: int, y: int) -> int {
    299 * s[pix_at(w, x, y, 0)] + 587 * s[pix_at(w, x, y, 1)] + 114 * s[pix_at(w, x, y, 2)]
}

/// Scaled total luma of the 2x2 block anchored at `(x, y)`: the block's
/// average saturation exceeds a threshold `t` exactly when this total
/// exceeds `4000 * t`.
pub open spec fn block_luma_total(s: Seq<u8>, w: u32, x: int, y: int) -> int {
    luma_1000(s, w, x, y) + luma_1000(s, w, x, y + 1) + luma_1000(s, w, x + 1, y) + luma_1000(
        s,
        w,
        x + 1,
        y + 1,
    )
}

/// The five halftone bands, brightest first: average saturation above 200,
/// above 159, above 95, above 32, and the rest.
pub open spec fn halftone_band(total: int) -> int {
    if total > 4000 * 200 {
        0
    } else if total > 4000 * 159 {
        1
    } else if total > 4000 * 95 {
        2
    } else if total > 4000 * 32 {
        3
    } else {
        4
    }
}

/// The colour a block's top-left pixel takes: the dither patterns of the
/// three brightest bands give it white, the two darkest give it black.
pub open spec fn halftone_top_left(total: int) -> u8 {
    if halftone_band(total) <= 2 {
        255u8
    } else {
        0u8
    }
}

/// Whether halftoning writes byte `j`: an R, G or B byte of a pixel with
/// both coordinates even that anchors a complete 2x2 block. Only the
/// top-left pixel of each block is committed; the block's other three
/// pixels are classified but kept.
pub open spec fn halftone_writes(w: u32, h: u32, j: int) -> bool {
    chan_of(j) < 3 && col_of(w, j) % 2 == 0 && row_of(w, j) % 2 == 0 && col_of(w, j) + 1 < w
        && row_of(w, j) + 1 < h
}

/// The buffer after halftoning: the top-left pixel of every complete 2x2
/// block turns white or black with its block's band; everything else kept.
pub open spec fn halftone_seq(s: Seq<u8>, w: u32, h: u32) -> Seq<u8> {
    Seq::new(
        s.len(),
        |j: int|
            if halftone_writes(w, h, j) {
                halftone_top_left(block_luma_total(s, w, col_of(w, j), row_of(w, j)))
            } else {
                s[j]
            },
    )
}

/// Size of one band of a strip overlay with `n` strips: the image extent
/// divides into `2n - 1` equal bands (integer division; the remainder
/// stays unpainted).
pub open spec fn strip_size(extent: u32, n: u8) -> int {
    (extent as int) / (2 * (n as int) - 1)
}

/// Whether coordinate `y` lies in one of the painted bands with index
/// below `i`: the `k`-th painted band, for `k` in `[1, i)`, occupies
/// `[(2k - 1) * size, 2k * size)`.
pub open spec fn strip_covered_below(size: int, i: int, y: int) -> bool
    decreases i,
{
    if i <= 1 {
        false
    } else {
        strip_covered_below(size, i - 1, y) || ((2 * (i - 1) - 1) * size <= y < 2 * (i - 1)
            * size)
    }
}

/// Whether an `n`-strip overlay over the given extent paints coordinate `y`.
pub open spec fn strip_covers(extent: u32, n: u8, y: int) -> bool {
    strip_covered_below(strip_size(extent, n), n as int, y)
}

/// The buffer after a horizontal strip overlay: every byte of a painted
/// row turns white, alpha included; everything else is kept.
pub open spec fn hstrips_seq(s: Seq<u8>, w: u32, h: u32, n: u8) -> Seq<u8> {
    Seq::new(s.len(), |j: int| if strip_covers(h, n, row_of(w, j)) { 255u8 } else { s[j] })
}

/// The buffer after a vertical strip overlay: every byte of a painted
/// column turns white, alpha included; everything else is kept.
pub open spec fn vstrips_seq(s: Seq<u8>, w: u32, h: u32, n: u8) -> Seq<u8> {
    Seq::new(s.len(), |j: int| if strip_covers(w, n, col_of(w, j)) { 255u8 } else { s[j] })
}

/// Clamp of an integer into `[lo, hi]`.
pub open spec fn clamp_int(v: int, lo: int, hi: int) -> int {
    if v < lo {
        lo
    } else if v > hi {
        hi
    } else {
        v
    }
}

/// The contrast lookup table: entry `i` realizes
/// `clamp((i - 128) * factor + 128, 0, 255)`, rounded down, for the factor
/// `259 * (c + 255) / (255 * (259 - c))` of a contrast `c` in `[-255, 255]`.
pub open spec fn contrast_entry(c: int, i: int) -> u8 {
    clamp_int((i - 128) * (259 * (c + 255)) / (255 * (259 - c)) + 128, 0, 255) as u8
}

/// The buffer after a contrast adjustment with the already-clamped contrast
/// `c`: R, G and B of every pixel pass through the lookup table; alpha kept.
pub open spec fn contrast_seq(s: Seq<u8>, c: int) -> Seq<u8> {
    Seq::new(s.len(), |j: int| if j % 4 < 3 { contrast_entry(c, s[j] as int) } else { s[j] })
}

/// Floor division of a non-positive numerator, phrased through the ceiling
/// division of its absolute value.
pub proof fn lemma_neg_div_ceil(a: int, den: int)
    requires
        0 <= a,
        0 < den,
    ensures
        (-a) / den == -((a + den - 1) / den),
{
    broadcast use lemma_mul_is_commutative;

    let q = (a + den - 1) / den;
    let r = (a + den - 1) % den;
    lemma_fundamental_div_mod(a + den - 1, den);
    lemma_mod_bound(a + den - 1, den);
    assert((-q) * den == -(q * den)) by (nonlinear_arith);
    lemma_fundamental_div_mod_converse(-a, den, -q, den - 1 - r);
}

/// The buffer after colorizing: each pixel's R, G and B go through
/// `colorize_pix` against that pixel's own colour; alpha is kept.
pub open spec fn colorize_seq(s: Seq<u8>) -> Seq<u8> {
    Seq::new(
        s.len(),
        |j: int|
            {
                let base = 4 * (j / 4);
                if j % 4 < 3 {
                    colorize_pix(s[base], s[base + 1], s[base + 2], j % 4)
                } else {
                    s[j]
                }
            },
    )
}

/// Sum of channel `ch` over `cnt` consecutive pixels of row `y`, starting
/// at column `x`.
pub open spec fn row_sum(s: Seq<u8>, w: u32, x: int, y: int, cnt: nat, ch: int) -> int
    decreases cnt,
{
    if cnt == 0 {
        0
    } else {
        row_sum(s, w, x, y, (cnt - 1) as nat, ch) + s[pix_at(w, x + cnt - 1, y, ch)]
    }
}

/// Sum of channel `ch` over the `k`-wide, `rows`-tall window anchored at
/// `(x, y)`.
pub open spec fn win_sum(s: Seq<u8>, w: u32, x: int, y: int, rows: nat, k: nat, ch: int) -> int
    decreases rows,
{
    if rows == 0 {
        0
    } else {
        win_sum(s, w, x, y, (rows - 1) as nat, k, ch) + row_sum(s, w, x, y + rows - 1, k, ch)
    }
}

/// Mean of channel `ch` over the `k x k` window anchored at `(x, y)`,
/// rounded down.
pub open spec fn win_avg(s: Seq<u8>, w: u32, x: int, y: int, k: nat, ch: int) -> int {
    win_sum(s, w, x, y, k, k, ch) / ((k * k) as int)
}

/// Squared deviation of one pixel's three channels from the given means.
pub open spec fn sq_dev(s: Seq<u8>, w: u32, x: int, y: int, ar: int, ag: int, ab: int) -> int {
    (s[pix_at(w, x, y, 0)] - ar) * (s[pix_at(w, x, y, 0)] - ar) + (s[pix_at(w, x, y, 1)] - ag) * (
    s[pix_at(w, x, y, 1)] - ag) + (s[pix_at(w, x, y, 2)] - ab) * (s[pix_at(w, x, y, 2)] - ab)
}

/// Sum of `sq_dev` over `cnt` consecutive pixels of row `y`.
pub open spec fn row_dev_sum(
    s: Seq<u8>,
    w: u32,
    x: int,
    y: int,
    cnt: nat,
    ar: int,
    ag: int,
    ab: int,
) -> int
    decreases cnt,
{
    if cnt == 0 {
        0
    } else {
        row_dev_sum(s, w, x, y, (cnt - 1) as nat, ar, ag, ab) + sq_dev(
            s,
            w,
            x + cnt - 1,
            y,
            ar,
            ag,
            ab,
        )
    }
}

/// Sum of `sq_dev` over the `k`-wide, `rows`-tall window anchored at
/// `(x, y)`.
pub open spec fn win_dev_sum(
    s: Seq<u8>,
    w: u32,
    x: int,
    y: int,
    rows: nat,
    k: nat,
    ar: int,
    ag: int,
    ab: int,
) -> int
    decreases rows,
{
    if rows == 0 {
        0
    } else {
        win_dev_sum(s, w, x, y, (rows - 1) as nat, k, ar, ag, ab) + row_dev_sum(
            s,
            w,
            x,
            y + rows - 1,
            k,
            ar,
            ag,
            ab,
        )
    }
}

/// The statistic of the `k x k` window anchored at `(x, y)`: the three
/// channel means (rounded down) and the scaled variance — the total sum of
/// squared deviations, which orders windows exactly as the variance does,
/// the `k * k` denominator being shared by all windows.
pub open spec fn kuw_stat(s: Seq<u8>, w: u32, x: int, y: int, k: nat) -> (int, int, int, int) {
    (
        win_avg(s, w, x, y, k, 0),
        win_avg(s, w, x, y, k, 1),
        win_avg(s, w, x, y, k, 2),
        win_dev_sum(
            s,
            w,
            x,
            y,
            k,
            k,
            win_avg(s, w, x, y, k, 0),
            win_avg(s, w, x, y, k, 1),
            win_avg(s, w, x, y, k, 2),
        ),
    )
}

/// Of two optional window statistics, the one of smaller variance; exact
/// ties keep the left operand.
pub open spec fn opt_min_var(a: Option<(int, int, int, int)>, b: Option<(int, int, int, int)>) -> Option<
    (int, int, int, int),
> {
    match (a, b) {
        (Some(sa), Some(sb)) => if sa.3 <= sb.3 {
            Some(sa)
        } else {
            Some(sb)
        },
        (Some(sa), None) => Some(sa),
        (None, Some(sb)) => Some(sb),
        (None, None) => None,
    }
}

/// The window whose bottom-right corner is pixel `(x, y)`, where it exists.
pub open spec fn cand_tl(s: Seq<u8>, w: u32, h: u32, num: u32, x: int, y: int) -> Option<
    (int, int, int, int),
> {
    if x >= num && y >= num {
        Some(kuw_stat(s, w, x - num, y - num, (num + 1) as nat))
    } else {
        None
    }
}

/// The window whose bottom-left corner is pixel `(x, y)`, where it exists.
pub open spec fn cand_tr(s: Seq<u8>, w: u32, h: u32, num: u32, x: int, y: int) -> Option<
    (int, int, int, int),
> {
    if x < w - num && y >= num {
        Some(kuw_stat(s, w, x, y - num, (num + 1) as nat))
    } else {
        None
    }
}

/// The window whose top-right corner is pixel `(x, y)`, where it exists.
pub open spec fn cand_bl(s: Seq<u8>, w: u32, h: u32, num: u32, x: int, y: int) -> Option<
    (int, int, int, int),
> {
    if x >= num && y < h - num {
        Some(kuw_stat(s, w, x - num, y, (num + 1) as nat))
    } else {
        None
    }
}

/// The window whose top-left corner is pixel `(x, y)`, where it exists.
pub open spec fn cand_br(s: Seq<u8>, w: u32, h: u32, num: u32, x: int, y: int) -> Option<
    (int, int, int, int),
> {
    if x < w - num && y < h - num {
        Some(kuw_stat(s, w, x, y, (num + 1) as nat))
    } else {
        None
    }
}

/// The statistic the Kuwahara filter picks for pixel `(x, y)`: of the up to
/// four windows touching the pixel, the one of least variance; ties prefer
/// top-left over top-right, bottom-left over bottom-right, and the top
/// composite over the bottom one.
pub open spec fn kuw_pick(s: Seq<u8>, w: u32, h: u32, num: u32, x: int, y: int) -> Option<
    (int, int, int, int),
> {
    opt_min_var(
        opt_min_var(cand_tl(s, w, h, num, x, y), cand_tr(s, w, h, num, x, y)),
        opt_min_var(cand_bl(s, w, h, num, x, y), cand_br(s, w, h, num, x, y)),
    )
}

/// The buffer after the Kuwahara filter: R, G and B of every pixel take the
/// means of the picked window; alpha is kept.
pub open spec fn kuwahara_seq(s: Seq<u8>, w: u32, h: u32, num: u32) -> Seq<u8> {
    Seq::new(
        s.len(),
        |j: int|
            match kuw_pick(s, w, h, num, col_of(w, j), row_of(w, j)) {
                Some(st) => {
                    if chan_of(j) == 0 {
                        st.0 as u8
                    } else if chan_of(j) == 1 {
                        st.1 as u8
                    } else if chan_of(j) == 2 {
                        st.2 as u8
                    } else {
                        s[j]
                    }
                },
                None => s[j],
            },
    )
}

/// Channel sums over a row stay within `255` per pixel.
pub proof fn lemma_row_sum_bounds(s: Seq<u8>, w: u32, x: int, y: int, cnt: nat, ch: int)
    ensures
        0 <= row_sum(s, w, x, y, cnt, ch) <= 255 * cnt,
    decreases cnt,
{
    if cnt > 0 {
        lemma_row_sum_bounds(s, w, x, y, (cnt - 1) as nat, ch);
    }
}

/// Channel sums over a window stay within `255` per pixel.
pub proof fn lemma_win_sum_bounds(s: Seq<u8>, w: u32, x: int, y: int, rows: nat, k: nat, ch: int)
    ensures
        0 <= win_sum(s, w, x, y, rows, k, ch) <= 255 * (rows * k),
    decreases rows,
{
    if rows > 0 {
        lemma_win_sum_bounds(s, w, x, y, (rows - 1) as nat, k, ch);
        lemma_row_sum_bounds(s, w, x, y + rows - 1, k, ch);
        let r1 = (rows - 1) as int;
        let ki = k as int;
        assert(255 * (r1 * ki) + 255 * ki == 255 * ((r1 + 1) * ki)) by (nonlinear_arith);
    }
}

/// A window mean lies in the channel range.
pub proof fn lemma_win_avg_range(s: Seq<u8>, w: u32, x: int, y: int, k: nat, ch: int)
    requires
        1 <= k,
    ensures
        0 <= win_avg(s, w, x, y, k, ch) <= 255,
{
    broadcast use lemma_mul_is_commutative;

    let ki = k as int;
    let kk = (k * k) as int;
    assert(kk == ki * ki);
    assert(1 <= ki * ki) by (nonlinear_arith)
        requires 1 <= ki;
    lemma_win_sum_bounds(s, w, x, y, k, k, ch);
    lemma_div_is_ordered(0, win_sum(s, w, x, y, k, k, ch), kk);
    lemma_div_multiples_vanish(0, kk);
    lemma_div_is_ordered(win_sum(s, w, x, y, k, k, ch), 255 * kk, kk);
    lemma_div_multiples_vanish(255, kk);
}

/// A pixel's squared deviation from in-range means stays within
/// `3 * 255 * 255`.
pub proof fn lemma_sq_dev_bounds(s: Seq<u8>, w: u32, x: int, y: int, ar: int, ag: int, ab: int)
    requires
        0 <= ar <= 255,
        0 <= ag <= 255,
        0 <= ab <= 255,
    ensures
        0 <= sq_dev(s, w, x, y, ar, ag, ab) <= 195075,
{
    let v0 = s[pix_at(w, x, y, 0)] as int;
    let v1 = s[pix_at(w, x, y, 1)] as int;
    let v2 = s[pix_at(w, x, y, 2)] as int;
    assert(0 <= (v0 - ar) * (v0 - ar) <= 65025) by (nonlinear_arith)
        requires 0 <= v0 <= 255 && 0 <= ar <= 255;
    assert(0 <= (v1 - ag) * (v1 - ag) <= 65025) by (nonlinear_arith)
        requires 0 <= v1 <= 255 && 0 <= ag <= 255;
    assert(0 <= (v2 - ab) * (v2 - ab) <= 65025) by (nonlinear_arith)
        requires 0 <= v2 <= 255 && 0 <= ab <= 255;
}

/// Squared deviations over a row stay within `3 * 255 * 255` per pixel.
pub proof fn lemma_row_dev_bounds(
    s: Seq<u8>,
    w: u32,
    x: int,
    y: int,
    cnt: nat,
    ar: int,
    ag: int,
    ab: int,
)
    requires
        0 <= ar <= 255,
        0 <= ag <= 255,
        0 <= ab <= 255,
    ensures
        0 <= row_dev_sum(s, w, x, y, cnt, ar, ag, ab) <= 195075 * cnt,
    decreases cnt,
{
    if cnt > 0 {
        lemma_row_dev_bounds(s, w, x, y, (cnt - 1) as nat, ar, ag, ab);
        lemma_sq_dev_bounds(s, w, x + cnt - 1, y, ar, ag, ab);
    }
}

/// Squared deviations over a window stay within `3 * 255 * 255` per pixel.
pub proof fn lemma_win_dev_bounds(
    s: Seq<u8>,
    w: u32,
    x: int,
    y: int,
    rows: nat,
    k: nat,
    ar: int,
    ag: int,
    ab: int,
)
    requires
        0 <= ar <= 255,
        0 <= ag <= 255,
        0 <= ab <= 255,
    ensures
        0 <= win_dev_sum(s, w, x, y, rows, k, ar, ag, ab) <= 195075 * (rows * k),
    decreases rows,
{
    if rows > 0 {
        lemma_win_dev_bounds(s, w, x, y, (rows - 1) as nat, k, ar, ag, ab);
        lemma_row_dev_bounds(s, w, x, y + rows - 1, k, ar, ag, ab);
        let r1 = (rows - 1) as int;
        let ki = k as int;
        assert(195075 * (r1 * ki) + 195075 * ki == 195075 * ((r1 + 1) * ki)) by (nonlinear_arith);
    }
}

} // verus!
