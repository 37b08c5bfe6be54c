//! The effects themselves: each one rewrites an image's buffer in place (or
//! returns a fresh image) and promises exactly the buffer that the matching
//! spec function in [`crate::model`] describes.

use crate::model::{
    block_luma_total, brightness_seq, buf_len, chan_of, clamp_int, col_of, colorize_pix,
    colorize_seq, contrast_entry, contrast_seq, cyan_sq_distance, dual_c1_writes, dual_c2_guard,
    dual_c2_val, halftone_seq, halftone_top_left, halftone_writes, hstrips_seq, kuw_pick,
    kuw_stat, kuwahara_seq, lemma_byte_decompose, lemma_neg_div_ceil, lemma_pix_at_bounds,
    lemma_pix_at_inverse, lemma_row_dev_bounds, lemma_row_sum_bounds, lemma_win_avg_range,
    lemma_win_dev_bounds, lemma_win_sum_bounds, multiple_offsets_seq, offset_seq, offset_writes,
    pix_at, primary_seq, row_dev_sum, row_of, row_sum, sat_add_255, solarize_seq, solarize_val,
    sq_dev, strip_covered_below, strip_size, threshold_128, tint_seq, tint_val, vstrips_seq,
    win_avg, win_dev_sum, win_sum, cand_bl, cand_br, cand_tl, cand_tr, rgb_sq_distance,
};
use vstd::arithmetic::mul::lemma_mul_nonnegative;
use crate::{PhotonImage, Rgb};
use vstd::arithmetic::div_mod::{
    lemma_div_is_ordered, lemma_div_multiples_vanish, lemma_fundamental_div_mod,
    lemma_fundamental_div_mod_converse, lemma_mod_bound,
};
use vstd::pervasive::VecAdditionalExecFns;
use vstd::prelude::*;

verus! {

/// Byte index of channel `ch` of the pixel at column `x`, row `y` of an
/// image `w` pixels wide and `h` pixels high whose buffer has `len` bytes.
fn pix_index(w: u32, h: u32, x: u32, y: u32, ch: usize, len: usize) -> (i: usize)
    requires
        x < w,
        y < h,
        ch < 4,
        len == buf_len(w, h),
    ensures
        i == pix_at(w, x as int, y as int, ch as int),
        i + (4 - ch) <= len,
{
    proof {
        lemma_pix_at_bounds(w, h, x as int, y as int, ch as int);
    }
    let idx: u64 = 4 * ((y as u64) * (w as u64) + (x as u64)) + (ch as u64);
    proof {
        assert(idx <= usize::MAX as u64);
    }
    idx as usize
}

/// Adds an offset to one colour channel: inside a fixed ten-pixel margin,
/// channel `channel_index` of each pixel takes the value that channel has at
/// the pixel `offset` columns right and `offset` rows down, whenever that
/// source pixel lies strictly inside the one-pixel border; every other byte
/// is kept.
pub fn offset(photon_image: &mut PhotonImage, channel_index: usize, offset: u32)
    requires
        old(photon_image).wf(),
        channel_index <= 2,
        old(photon_image).width >= 10,
        old(photon_image).height >= 10,
    ensures
        final(photon_image).wf(),
        final(photon_image).width == old(photon_image).width,
        final(photon_image).height == old(photon_image).height,
        final(photon_image).raw_pixels@ == offset_seq(
            old(photon_image).raw_pixels@,
            old(photon_image).width,
            old(photon_image).height,
            channel_index as int,
            offset,
        ),
{
    let w = photon_image.width;
    let h = photon_image.height;
    let ghost s = photon_image.raw_pixels@;
    let ghost c = channel_index as int;
    let ghost os = offset_seq(s, w, h, c, offset);
    let len: usize = photon_image.raw_pixels.len();
    let mut x: u32 = 0;
    while x < w - 10
        invariant
            photon_image.width == w,
            photon_image.height == h,
            photon_image.raw_pixels@.len() == len,
            s.len() == len,
            len == buf_len(w, h),
            w >= 10,
            h >= 10,
            channel_index <= 2,
            c == channel_index as int,
            os == offset_seq(s, w, h, c, offset),
            os.len() == len,
            x <= w - 10,
            forall|j: int|
                0 <= j < len ==> photon_image.raw_pixels@[j] == (if crate::model::col_of(w, j)
                    < x {
                    os[j]
                } else {
                    s[j]
                }),
        decreases w - 10 - x,
    {
        let mut y: u32 = 0;
        while y < h - 10
            invariant
                photon_image.width == w,
                photon_image.height == h,
                photon_image.raw_pixels@.len() == len,
                s.len() == len,
                len == buf_len(w, h),
                w >= 10,
                h >= 10,
                channel_index <= 2,
                c == channel_index as int,
                os == offset_seq(s, w, h, c, offset),
                os.len() == len,
                x < w - 10,
                y <= h - 10,
                forall|j: int|
                    0 <= j < len ==> photon_image.raw_pixels@[j] == (if crate::model::col_of(w, j)
                        < x || (crate::model::col_of(w, j) == x && crate::model::row_of(w, j)
                        < y) {
                        os[j]
                    } else {
                        s[j]
                    }),
            decreases h - 10 - y,
        {
            let ghost vpre = photon_image.raw_pixels@;
            let in_range = (x as u64) + (offset as u64) < (w - 1) as u64 && (y as u64) + (offset
                as u64) < (h - 1) as u64;
            if in_range {
                let sx: u32 = x + offset;
                let sy: u32 = y + offset;
                let si = pix_index(w, h, sx, sy, channel_index, len);
                let src = photon_image.raw_pixels[si];
                let di = pix_index(w, h, x, y, channel_index, len);
                proof {
                    lemma_pix_at_inverse(w, sx as int, sy as int, c);
                    assert(photon_image.raw_pixels@[si as int] == s[si as int]);
                }
                photon_image.raw_pixels.set(di, src);
            }
            proof {
                lemma_pix_at_inverse(w, x as int, y as int, c);
                let di = pix_at(w, x as int, y as int, c);
                let vnew = photon_image.raw_pixels@;
                assert forall|j: int| 0 <= j < len implies vnew[j] == (if crate::model::col_of(
                    w,
                    j,
                ) < x || (crate::model::col_of(w, j) == x && crate::model::row_of(w, j) < y
                    + 1) {
                    os[j]
                } else {
                    s[j]
                }) by {
                    lemma_byte_decompose(w, h, j);
                    let jx = crate::model::col_of(w, j);
                    let jy = crate::model::row_of(w, j);
                    let jc = crate::model::chan_of(j);
                    if j != di {
                        assert(vnew[j] == vpre[j]);
                    }
                    if jx == x && jy == y {
                        if jc == c && offset_writes(w, h, offset, j) {
                            assert(in_range);
                            assert(j == di);
                        } else {
                            assert(os[j] == s[j]);
                            if jc == c {
                                assert(!in_range);
                                assert(vnew[j] == vpre[j]);
                            } else {
                                assert(j != di);
                            }
                        }
                    }
                }
            }
            y = y + 1;
        }
        proof {
            let vnew = photon_image.raw_pixels@;
            assert forall|j: int| 0 <= j < len implies vnew[j] == (if crate::model::col_of(w, j) < x
                + 1 {
                os[j]
            } else {
                s[j]
            }) by {
                lemma_byte_decompose(w, h, j);
                if crate::model::col_of(w, j) == x && crate::model::row_of(w, j) >= h - 10 {
                    assert(!offset_writes(w, h, offset, j));
                    assert(os[j] == s[j]);
                }
            }
        }
        x = x + 1;
    }
    proof {
        assert forall|j: int| 0 <= j < len implies photon_image.raw_pixels@[j] == os[j] by {
            lemma_byte_decompose(w, h, j);
            if crate::model::col_of(w, j) >= w - 10 {
                assert(!offset_writes(w, h, offset, j));
                assert(os[j] == s[j]);
            }
        }
        assert(photon_image.raw_pixels@ =~= os);
    }
}

/// Adds an offset to the red channel.
pub fn offset_red(img: &mut PhotonImage, offset_amt: u32)
    requires
        old(img).wf(),
        old(img).width >= 10,
        old(img).height >= 10,
    ensures
        final(img).wf(),
        final(img).width == old(img).width,
        final(img).height == old(img).height,
        final(img).raw_pixels@ == offset_seq(
            old(img).raw_pixels@,
            old(img).width,
            old(img).height,
            0,
            offset_amt,
        ),
{
    offset(img, 0, offset_amt)
}

/// Adds an offset to the green channel.
pub fn offset_green(img: &mut PhotonImage, offset_amt: u32)
    requires
        old(img).wf(),
        old(img).width >= 10,
        old(img).height >= 10,
    ensures
        final(img).wf(),
        final(img).width == old(img).width,
        final(img).height == old(img).height,
        final(img).raw_pixels@ == offset_seq(
            old(img).raw_pixels@,
            old(img).width,
            old(img).height,
            1,
            offset_amt,
        ),
{
    offset(img, 1, offset_amt)
}

/// Adds an offset to the blue channel.
pub fn offset_blue(img: &mut PhotonImage, offset_amt: u32)
    requires
        old(img).wf(),
        old(img).width >= 10,
        old(img).height >= 10,
    ensures
        final(img).wf(),
        final(img).width == old(img).width,
        final(img).height == old(img).height,
        final(img).raw_pixels@ == offset_seq(
            old(img).raw_pixels@,
            old(img).width,
            old(img).height,
            2,
            offset_amt,
        ),
{
    offset(img, 2, offset_amt)
}

/// Adds offsets to two colour channels at once, scanning rows left to
/// right: channel `channel_index` of each pixel copies from the pixel
/// `offset` columns to the right (bounds permitting), and channel
/// `channel_index2` copies from the pixel `offset` columns to the left
/// (when the pixel lies beyond `offset` in both coordinates), which at that
/// point already holds its own rewritten value.
pub fn multiple_offsets(
    photon_image: &mut PhotonImage,
    offset: u32,
    channel_index: usize,
    channel_index2: usize,
)
    requires
        old(photon_image).wf(),
        channel_index <= 2,
        channel_index2 <= 2,
    ensures
        final(photon_image).wf(),
        final(photon_image).width == old(photon_image).width,
        final(photon_image).height == old(photon_image).height,
        final(photon_image).raw_pixels@ == multiple_offsets_seq(
            old(photon_image).raw_pixels@,
            old(photon_image).width,
            old(photon_image).height,
            offset,
            channel_index as int,
            channel_index2 as int,
        ),
{
    let w = photon_image.width;
    let h = photon_image.height;
    let ghost s = photon_image.raw_pixels@;
    let ghost c1 = channel_index as int;
    let ghost c2 = channel_index2 as int;
    let ghost ms = multiple_offsets_seq(s, w, h, offset, c1, c2);
    let len: usize = photon_image.raw_pixels.len();
    let mut y: u32 = 0;
    while y < h
        invariant
            photon_image.width == w,
            photon_image.height == h,
            photon_image.raw_pixels@.len() == len,
            s.len() == len,
            len == buf_len(w, h),
            channel_index <= 2,
            channel_index2 <= 2,
            c1 == channel_index as int,
            c2 == channel_index2 as int,
            ms == multiple_offsets_seq(s, w, h, offset, c1, c2),
            ms.len() == len,
            y <= h,
            forall|j: int|
                0 <= j < len ==> photon_image.raw_pixels@[j] == (if row_of(w, j) < y {
                    ms[j]
                } else {
                    s[j]
                }),
        decreases h - y,
    {
        let mut x: u32 = 0;
        while x < w
            invariant
                photon_image.width == w,
                photon_image.height == h,
                photon_image.raw_pixels@.len() == len,
                s.len() == len,
                len == buf_len(w, h),
                channel_index <= 2,
                channel_index2 <= 2,
                c1 == channel_index as int,
                c2 == channel_index2 as int,
                ms == multiple_offsets_seq(s, w, h, offset, c1, c2),
                ms.len() == len,
                y < h,
                x <= w,
                forall|j: int|
                    0 <= j < len ==> photon_image.raw_pixels@[j] == (if row_of(w, j) < y || (row_of(
                        w,
                        j,
                    ) == y && col_of(w, j) < x) {
                        ms[j]
                    } else {
                        s[j]
                    }),
            decreases w - x,
        {
            let ghost vpre = photon_image.raw_pixels@;
            let cond1 = (x as u64) + (offset as u64) < (w - 1) as u64 && (y as u64) + (offset
                as u64) < (h - 1) as u64;
            let cond2 = x > offset && y > offset;
            let v1_opt: Option<u8> = if cond1 {
                let sx: u32 = x + offset;
                let si = pix_index(w, h, sx, y, channel_index, len);
                proof {
                    lemma_pix_at_inverse(w, sx as int, y as int, c1);
                }
                Some(photon_image.raw_pixels[si])
            } else {
                None
            };
            proof {
                if cond1 {
                    assert(v1_opt == Some(s[pix_at(w, x + offset, y as int, c1)]));
                }
            }
            let v2_opt: Option<u8> = if cond2 {
                let sx2: u32 = x - offset;
                let si2 = pix_index(w, h, sx2, y, channel_index2, len);
                proof {
                    lemma_pix_at_inverse(w, sx2 as int, y as int, c2);
                }
                Some(photon_image.raw_pixels[si2])
            } else {
                None
            };
            proof {
                if cond2 {
                    let si2 = pix_at(w, x - offset, y as int, c2);
                    lemma_pix_at_inverse(w, x - offset, y as int, c2);
                    if offset > 0 {
                        assert(vpre[si2] == ms[si2]);
                        assert(ms[si2] == dual_c2_val(s, w, h, offset, c1, c2, x - offset, y as int));
                    } else {
                        assert(vpre[si2] == s[si2]);
                    }
                    assert(v2_opt == Some(dual_c2_val(s, w, h, offset, c1, c2, x as int, y as int)));
                }
            }
            if let Some(v1) = v1_opt {
                let d1 = pix_index(w, h, x, y, channel_index, len);
                photon_image.raw_pixels.set(d1, v1);
            }
            if let Some(v2) = v2_opt {
                let d2 = pix_index(w, h, x, y, channel_index2, len);
                photon_image.raw_pixels.set(d2, v2);
            }
            proof {
                lemma_pix_at_inverse(w, x as int, y as int, c1);
                lemma_pix_at_inverse(w, x as int, y as int, c2);
                lemma_pix_at_bounds(w, h, x as int, y as int, c1);
                lemma_pix_at_bounds(w, h, x as int, y as int, c2);
                let d1 = pix_at(w, x as int, y as int, c1);
                let d2 = pix_at(w, x as int, y as int, c2);
                let vnew = photon_image.raw_pixels@;
                assert forall|j: int| 0 <= j < len implies vnew[j] == (if row_of(w, j) < y || (
                row_of(w, j) == y && col_of(w, j) < x + 1) {
                    ms[j]
                } else {
                    s[j]
                }) by {
                    lemma_byte_decompose(w, h, j);
                    let jx = col_of(w, j);
                    let jy = row_of(w, j);
                    let jc = chan_of(j);
                    if jx == x && jy == y {
                        if jc == c2 && dual_c2_guard(offset, x as int, y as int) {
                            assert(cond2);
                            assert(j == d2);
                            assert(vnew[j] == dual_c2_val(s, w, h, offset, c1, c2, x as int, y as int));
                        } else if jc == c1 && dual_c1_writes(w, h, offset, x as int, y as int) {
                            assert(cond1);
                            assert(j == d1);
                            if cond2 {
                                assert(j != d2);
                            }
                            assert(vnew[j] == s[pix_at(w, x + offset, y as int, c1)]);
                        } else {
                            if cond1 {
                                assert(j != d1);
                            }
                            if cond2 {
                                assert(j != d2);
                            }
                            assert(vnew[j] == s[j]);
                            assert(ms[j] == s[j]);
                        }
                    } else {
                        assert(j != d1 && j != d2);
                        assert(vnew[j] == vpre[j]);
                    }
                }
            }
            x = x + 1;
        }
        y = y + 1;
    }
    proof {
        assert forall|j: int| 0 <= j < len implies photon_image.raw_pixels@[j] == ms[j] by {
            assert(1 <= w && 1 <= h) by (nonlinear_arith)
                requires len == (w as int) * (h as int) * 4 && 0 < len;
            lemma_byte_decompose(w, h, j);
        }
        assert(photon_image.raw_pixels@ =~= ms);
    }
}

/// Applies a solarizing effect: every red value below 200 is reflected
/// about 200, leaving the other channels untouched.
pub fn solarize(photon_image: &mut PhotonImage)
    requires
        old(photon_image).wf(),
    ensures
        final(photon_image).wf(),
        final(photon_image).width == old(photon_image).width,
        final(photon_image).height == old(photon_image).height,
        final(photon_image).raw_pixels@ == solarize_seq(old(photon_image).raw_pixels@),
{
    let ghost s = photon_image.raw_pixels@;
    let ghost w0 = photon_image.width;
    let ghost h0 = photon_image.height;
    let len: usize = photon_image.raw_pixels.len();
    proof {
        lemma_fundamental_div_mod_converse(len as int, 4, (w0 * h0) as int, 0);
    }
    let mut i: usize = 0;
    while i < len
        invariant
            photon_image.raw_pixels@.len() == len,
            photon_image.width == w0,
            photon_image.height == h0,
            s.len() == len,
            len % 4 == 0,
            i % 4 == 0,
            i <= len,
            forall|j: int|
                0 <= j < len ==> photon_image.raw_pixels@[j] == (if j < i && j % 4 == 0 {
                    solarize_val(s[j])
                } else {
                    s[j]
                }),
        decreases len - i,
    {
        let v = photon_image.raw_pixels[i];
        if v < 200 {
            photon_image.raw_pixels.set(i, 200 - v);
        }
        i = i + 4;
    }
    proof {
        assert(photon_image.raw_pixels@ =~= solarize_seq(s));
    }
}

/// Increases the brightness of every pixel: each of R, G and B gains
/// `brightness`, saturating at 255; alpha is untouched.
pub fn inc_brightness(photon_image: &mut PhotonImage, brightness: u8)
    requires
        old(photon_image).wf(),
    ensures
        final(photon_image).wf(),
        final(photon_image).width == old(photon_image).width,
        final(photon_image).height == old(photon_image).height,
        final(photon_image).raw_pixels@ == brightness_seq(old(photon_image).raw_pixels@, brightness),
{
    let ghost s = photon_image.raw_pixels@;
    let ghost w0 = photon_image.width;
    let ghost h0 = photon_image.height;
    let len: usize = photon_image.raw_pixels.len();
    let mut i: usize = 0;
    while i < len
        invariant
            photon_image.raw_pixels@.len() == len,
            photon_image.width == w0,
            photon_image.height == h0,
            s.len() == len,
            i <= len,
            forall|j: int|
                0 <= j < len ==> photon_image.raw_pixels@[j] == (if j < i && j % 4 < 3 {
                    sat_add_255(s[j], brightness)
                } else {
                    s[j]
                }),
        decreases len - i,
    {
        if i % 4 != 3 {
            let v = photon_image.raw_pixels[i];
            if v <= 255 - brightness {
                photon_image.raw_pixels.set(i, v + brightness);
            } else {
                photon_image.raw_pixels.set(i, 255);
            }
        }
        i = i + 1;
    }
    proof {
        assert(photon_image.raw_pixels@ =~= brightness_seq(s, brightness));
    }
}

/// Applies a solarizing effect and returns the result as a fresh image,
/// leaving the source untouched.
pub fn solarize_retimg(photon_image: &PhotonImage) -> (result: PhotonImage)
    requires
        photon_image.wf(),
    ensures
        result.wf(),
        result.width == photon_image.width,
        result.height == photon_image.height,
        result.raw_pixels@ == solarize_seq(photon_image.raw_pixels@),
{
    let ghost s = photon_image.raw_pixels@;
    let len: usize = photon_image.raw_pixels.len();
    let mut out: Vec<u8> = Vec::new();
    let mut i: usize = 0;
    while i < len
        invariant
            photon_image.raw_pixels@ == s,
            s.len() == len,
            out@.len() == i,
            i <= len,
            forall|j: int| 0 <= j < i ==> out@[j] == solarize_seq(s)[j],
        decreases len - i,
    {
        let v = photon_image.raw_pixels[i];
        if i % 4 == 0 && v < 200 {
            out.push(200 - v);
        } else {
            out.push(v);
        }
        i = i + 1;
    }
    proof {
        assert(out@ =~= solarize_seq(s));
    }
    PhotonImage { raw_pixels: out, width: photon_image.width, height: photon_image.height }
}

/// Tints the image: each of R, G and B gains its own offset, saturating at
/// 255 as soon as the sum reaches it; alpha is untouched.
pub fn tint(photon_image: &mut PhotonImage, r_offset: u32, g_offset: u32, b_offset: u32)
    requires
        old(photon_image).wf(),
    ensures
        final(photon_image).wf(),
        final(photon_image).width == old(photon_image).width,
        final(photon_image).height == old(photon_image).height,
        final(photon_image).raw_pixels@ == tint_seq(
            old(photon_image).raw_pixels@,
            r_offset,
            g_offset,
            b_offset,
        ),
{
    let ghost s = photon_image.raw_pixels@;
    let ghost w0 = photon_image.width;
    let ghost h0 = photon_image.height;
    let len: usize = photon_image.raw_pixels.len();
    let mut i: usize = 0;
    while i < len
        invariant
            photon_image.raw_pixels@.len() == len,
            photon_image.width == w0,
            photon_image.height == h0,
            s.len() == len,
            i <= len,
            forall|j: int|
                0 <= j < len ==> photon_image.raw_pixels@[j] == (if j < i {
                    tint_seq(s, r_offset, g_offset, b_offset)[j]
                } else {
                    s[j]
                }),
        decreases len - i,
    {
        let ch: usize = i % 4;
        if ch != 3 {
            let off: u32 = if ch == 0 {
                r_offset
            } else if ch == 1 {
                g_offset
            } else {
                b_offset
            };
            let v = photon_image.raw_pixels[i];
            photon_image.raw_pixels.set(i, tint_channel(v, off));
        }
        i = i + 1;
    }
    proof {
        assert(photon_image.raw_pixels@ =~= tint_seq(s, r_offset, g_offset, b_offset));
    }
}

/// One channel of the tint: exact addition below 255, pinned at 255 beyond.
fn tint_channel(v: u8, off: u32) -> (r: u8)
    ensures
        r == tint_val(v, off),
{
    if (v as u64) + (off as u64) < 255 {
        v + (off as u8)
    } else {
        255
    }
}

/// Reduces the image to primary colours: R, G and B of every pixel collapse
/// to 0 or 255 at the midpoint 128, each channel according to the first
/// pixel's value of that channel; alpha is untouched.
pub fn primary(img: &mut PhotonImage)
    requires
        old(img).wf(),
        old(img).width >= 1,
        old(img).height >= 1,
    ensures
        final(img).wf(),
        final(img).width == old(img).width,
        final(img).height == old(img).height,
        final(img).raw_pixels@ == primary_seq(old(img).raw_pixels@),
{
    let ghost s = img.raw_pixels@;
    let ghost w0 = img.width;
    let ghost h0 = img.height;
    let len: usize = img.raw_pixels.len();
    proof {
        assert((w0 as int) * (h0 as int) * 4 >= 4) by (nonlinear_arith)
            requires w0 >= 1 && h0 >= 1;
    }
    let r0 = img.raw_pixels[0];
    let g0 = img.raw_pixels[1];
    let b0 = img.raw_pixels[2];
    let rv: u8 = if r0 > 128 { 255 } else { 0 };
    let gv: u8 = if g0 > 128 { 255 } else { 0 };
    let bv: u8 = if b0 > 128 { 255 } else { 0 };
    let mut i: usize = 0;
    while i < len
        invariant
            img.raw_pixels@.len() == len,
            img.width == w0,
            img.height == h0,
            s.len() == len,
            i <= len,
            rv == threshold_128(s[0]),
            gv == threshold_128(s[1]),
            bv == threshold_128(s[2]),
            forall|j: int|
                0 <= j < len ==> img.raw_pixels@[j] == (if j < i && j % 4 < 3 {
                    threshold_128(s[j % 4])
                } else {
                    s[j]
                }),
        decreases len - i,
    {
        let ch: usize = i % 4;
        if ch != 3 {
            let v: u8 = if ch == 0 {
                rv
            } else if ch == 1 {
                gv
            } else {
                bv
            };
            img.raw_pixels.set(i, v);
        }
        i = i + 1;
    }
    proof {
        assert(img.raw_pixels@ =~= primary_seq(s));
    }
}

/// Squared Euclidean distance between two colours' RGB components.
fn square_distance(c1: &Rgb, c2: &Rgb) -> (d: u32)
    ensures
        d == rgb_sq_distance(*c1, *c2),
{
    let dr: u32 = if c1.r >= c2.r {
        (c1.r - c2.r) as u32
    } else {
        (c2.r - c1.r) as u32
    };
    let dg: u32 = if c1.g >= c2.g {
        (c1.g - c2.g) as u32
    } else {
        (c2.g - c1.g) as u32
    };
    let db: u32 = if c1.b >= c2.b {
        (c1.b - c2.b) as u32
    } else {
        (c2.b - c1.b) as u32
    };
    proof {
        assert((dr as int) * (dr as int) == ((c1.r as int) - (c2.r as int)) * ((c1.r as int) - (
        c2.r as int)) && dr * dr <= 65025) by (nonlinear_arith)
            requires
                0 <= dr <= 255 && ((dr as int) == (c1.r as int) - (c2.r as int) || (dr as int) == (
                c2.r as int) - (c1.r as int));
        assert((dg as int) * (dg as int) == ((c1.g as int) - (c2.g as int)) * ((c1.g as int) - (
        c2.g as int)) && dg * dg <= 65025) by (nonlinear_arith)
            requires
                0 <= dg <= 255 && ((dg as int) == (c1.g as int) - (c2.g as int) || (dg as int) == (
                c2.g as int) - (c1.g as int));
        assert((db as int) * (db as int) == ((c1.b as int) - (c2.b as int)) * ((c1.b as int) - (
        c2.b as int)) && db * db <= 65025) by (nonlinear_arith)
            requires
                0 <= db <= 255 && ((db as int) == (c1.b as int) - (c2.b as int) || (db as int) == (
                c2.b as int) - (c1.b as int));
    }
    dr * dr + dg * dg + db * db
}

/// Colorizes the image towards cyan: every pixel lying strictly within
/// squared distance 220 * 220 of cyan has red and blue halved and green
/// raised by a quarter (saturating at 255); other pixels are untouched.
pub fn colorize(photon_image: &mut PhotonImage)
    requires
        old(photon_image).wf(),
    ensures
        final(photon_image).wf(),
        final(photon_image).width == old(photon_image).width,
        final(photon_image).height == old(photon_image).height,
        final(photon_image).raw_pixels@ == colorize_seq(old(photon_image).raw_pixels@),
{
    let ghost s = photon_image.raw_pixels@;
    let ghost w0 = photon_image.width;
    let ghost h0 = photon_image.height;
    let len: usize = photon_image.raw_pixels.len();
    proof {
        lemma_fundamental_div_mod_converse(len as int, 4, (w0 * h0) as int, 0);
    }
    let n_px: usize = len / 4;
    proof {
        lemma_fundamental_div_mod(len as int, 4);
    }
    let mut p: usize = 0;
    while p < n_px
        invariant
            photon_image.raw_pixels@.len() == len,
            photon_image.width == w0,
            photon_image.height == h0,
            s.len() == len,
            len == 4 * n_px,
            p <= n_px,
            forall|j: int|
                0 <= j < len ==> photon_image.raw_pixels@[j] == (if j < 4 * p {
                    colorize_seq(s)[j]
                } else {
                    s[j]
                }),
        decreases n_px - p,
    {
        let i: usize = 4 * p;
        let r = photon_image.raw_pixels[i];
        let g = photon_image.raw_pixels[i + 1];
        let b = photon_image.raw_pixels[i + 2];
        proof {
            assert forall|c: int| 0 <= c < 4 implies #[trigger] ((4 * p + c) / 4) == p && (4 * p
                + c) % 4 == c by {
                lemma_fundamental_div_mod_converse(4 * p + c, 4, p as int, c);
            }
        }
        let px_rgb = Rgb::new(r, g, b);
        let baseline_color = Rgb::new(0, 255, 255);
        let dist: u32 = square_distance(&baseline_color, &px_rgb);
        assert(dist == cyan_sq_distance(r, g, b));
        if dist < 48400 {
            photon_image.raw_pixels.set(i, r / 2);
            let grown: u32 = 5 * (g as u32) / 4;
            let gv: u8 = if grown <= 255 {
                grown as u8
            } else {
                255
            };
            photon_image.raw_pixels.set(i + 1, gv);
            photon_image.raw_pixels.set(i + 2, b / 2);
        }
        p = p + 1;
    }
    proof {
        assert(photon_image.raw_pixels@ =~= colorize_seq(s));
    }
}

/// Scaled luma of the pixel at `(x, y)`, read from the live buffer:
/// `299 * R + 587 * G + 114 * B`.
fn read_luma(pixels: &Vec<u8>, w: u32, h: u32, x: u32, y: u32, len: usize) -> (l: u32)
    requires
        x < w,
        y < h,
        pixels@.len() == len,
        len == buf_len(w, h),
    ensures
        l == 299 * pixels@[pix_at(w, x as int, y as int, 0)] + 587 * pixels@[pix_at(
            w,
            x as int,
            y as int,
            1,
        )] + 114 * pixels@[pix_at(w, x as int, y as int, 2)],
        l <= 255000,
{
    let i0 = pix_index(w, h, x, y, 0, len);
    let i1 = pix_index(w, h, x, y, 1, len);
    let i2 = pix_index(w, h, x, y, 2, len);
    let r = pixels[i0];
    let g = pixels[i1];
    let b = pixels[i2];
    299 * (r as u32) + 587 * (g as u32) + 114 * (b as u32)
}

/// Halftoning effect: the image is cut into 2x2 blocks (a trailing odd row
/// or column is not visited), each block's average luma picks one of five
/// dither bands, and the block's top-left pixel — the only one committed —
/// turns white in the three brightest bands and black in the two darkest.
pub fn halftone(photon_image: &mut PhotonImage)
    requires
        old(photon_image).wf(),
    ensures
        final(photon_image).wf(),
        final(photon_image).width == old(photon_image).width,
        final(photon_image).height == old(photon_image).height,
        final(photon_image).raw_pixels@ == halftone_seq(
            old(photon_image).raw_pixels@,
            old(photon_image).width,
            old(photon_image).height,
        ),
{
    let w = photon_image.width;
    let h = photon_image.height;
    let ghost s = photon_image.raw_pixels@;
    let ghost hs = halftone_seq(s, w, h);
    let len: usize = photon_image.raw_pixels.len();
    let mut x: u32 = 0;
    while (x as u64) + 1 < (w as u64)
        invariant
            photon_image.width == w,
            photon_image.height == h,
            photon_image.raw_pixels@.len() == len,
            s.len() == len,
            len == buf_len(w, h),
            hs == halftone_seq(s, w, h),
            hs.len() == len,
            x % 2 == 0,
            x <= w,
            forall|j: int|
                0 <= j < len ==> photon_image.raw_pixels@[j] == (if halftone_writes(w, h, j)
                    && col_of(w, j) < x {
                    hs[j]
                } else {
                    s[j]
                }),
        decreases w - x,
    {
        let mut y: u32 = 0;
        while (y as u64) + 1 < (h as u64)
            invariant
                photon_image.width == w,
                photon_image.height == h,
                photon_image.raw_pixels@.len() == len,
                s.len() == len,
                len == buf_len(w, h),
                hs == halftone_seq(s, w, h),
                hs.len() == len,
                x % 2 == 0,
                y % 2 == 0,
                (x as u64) + 1 < (w as u64),
                y <= h,
                forall|j: int|
                    0 <= j < len ==> photon_image.raw_pixels@[j] == (if halftone_writes(w, h, j) && (
                    col_of(w, j) < x || (col_of(w, j) == x && row_of(w, j) < y)) {
                        hs[j]
                    } else {
                        s[j]
                    }),
            decreases h - y,
        {
            let ghost vpre = photon_image.raw_pixels@;
            proof {
                assert forall|ch: int| 0 <= ch < 3 implies #[trigger] vpre[pix_at(
                    w,
                    x as int,
                    y as int,
                    ch,
                )] == s[pix_at(w, x as int, y as int, ch)] by {
                    lemma_pix_at_inverse(w, x as int, y as int, ch);
                    lemma_pix_at_bounds(w, h, x as int, y as int, ch);
                }
                assert forall|ch: int| 0 <= ch < 3 implies #[trigger] vpre[pix_at(
                    w,
                    x as int,
                    y as int + 1,
                    ch,
                )] == s[pix_at(w, x as int, y as int + 1, ch)] by {
                    lemma_pix_at_inverse(w, x as int, y as int + 1, ch);
                    lemma_pix_at_bounds(w, h, x as int, y as int + 1, ch);
                }
                assert forall|ch: int| 0 <= ch < 3 implies #[trigger] vpre[pix_at(
                    w,
                    x as int + 1,
                    y as int,
                    ch,
                )] == s[pix_at(w, x as int + 1, y as int, ch)] by {
                    lemma_pix_at_inverse(w, x as int + 1, y as int, ch);
                    lemma_pix_at_bounds(w, h, x as int + 1, y as int, ch);
                }
                assert forall|ch: int| 0 <= ch < 3 implies #[trigger] vpre[pix_at(
                    w,
                    x as int + 1,
                    y as int + 1,
                    ch,
                )] == s[pix_at(w, x as int + 1, y as int + 1, ch)] by {
                    lemma_pix_at_inverse(w, x as int + 1, y as int + 1, ch);
                    lemma_pix_at_bounds(w, h, x as int + 1, y as int + 1, ch);
                }
            }
            let l1 = read_luma(&photon_image.raw_pixels, w, h, x, y, len);
            let l2 = read_luma(&photon_image.raw_pixels, w, h, x, y + 1, len);
            let l3 = read_luma(&photon_image.raw_pixels, w, h, x + 1, y, len);
            let l4 = read_luma(&photon_image.raw_pixels, w, h, x + 1, y + 1, len);
            let total: u32 = l1 + l2 + l3 + l4;
            proof {
                assert(total == block_luma_total(s, w, x as int, y as int));
            }
            let bv: u8 = if total > 380000 {
                255
            } else {
                0
            };
            let d0 = pix_index(w, h, x, y, 0, len);
            photon_image.raw_pixels.set(d0, bv);
            let d1 = pix_index(w, h, x, y, 1, len);
            photon_image.raw_pixels.set(d1, bv);
            let d2 = pix_index(w, h, x, y, 2, len);
            photon_image.raw_pixels.set(d2, bv);
            proof {
                let vnew = photon_image.raw_pixels@;
                assert(bv == halftone_top_left(block_luma_total(s, w, x as int, y as int)));
                assert forall|j: int| 0 <= j < len implies vnew[j] == (if halftone_writes(w, h, j)
                    && (col_of(w, j) < x || (col_of(w, j) == x && row_of(w, j) < y + 2)) {
                    hs[j]
                } else {
                    s[j]
                }) by {
                    lemma_byte_decompose(w, h, j);
                    let jx = col_of(w, j);
                    let jy = row_of(w, j);
                    let jc = chan_of(j);
                    if jx == x && jy == y && jc < 3 {
                        assert(j == pix_at(w, x as int, y as int, jc));
                        assert(vnew[j] == bv);
                        assert(halftone_writes(w, h, j));
                        assert(hs[j] == bv);
                    } else {
                        assert(j != pix_at(w, x as int, y as int, 0) && j != pix_at(
                            w,
                            x as int,
                            y as int,
                            1,
                        ) && j != pix_at(w, x as int, y as int, 2)) by {
                            lemma_pix_at_inverse(w, x as int, y as int, 0);
                            lemma_pix_at_inverse(w, x as int, y as int, 1);
                            lemma_pix_at_inverse(w, x as int, y as int, 2);
                        }
                        assert(vnew[j] == vpre[j]);
                        if jx == x && jy == y + 1 {
                            assert(!halftone_writes(w, h, j));
                        }
                    }
                }
            }
            y = y + 2;
        }
        proof {
            let vnew = photon_image.raw_pixels@;
            assert forall|j: int| 0 <= j < len implies vnew[j] == (if halftone_writes(w, h, j)
                && col_of(w, j) < x + 2 {
                hs[j]
            } else {
                s[j]
            }) by {
                lemma_byte_decompose(w, h, j);
                if col_of(w, j) == x + 1 && halftone_writes(w, h, j) {
                    assert(col_of(w, j) % 2 == 1);
                }
            }
        }
        x = x + 2;
    }
    proof {
        assert forall|j: int| 0 <= j < len implies photon_image.raw_pixels@[j] == hs[j] by {
            assert(1 <= w && 1 <= h) by (nonlinear_arith)
                requires len == (w as int) * (h as int) * 4 && 0 < len;
            lemma_byte_decompose(w, h, j);
            if halftone_writes(w, h, j) {
                assert(col_of(w, j) < x);
            }
        }
        assert(photon_image.raw_pixels@ =~= hs);
    }
}

/// Horizontal strips: the image divides into `2 * num_strips - 1` equal
/// bands, and every other band — the second, fourth, and so on — is painted
/// solid white (alpha included). Remainder rows from the integer division
/// are untouched, as is everything when `num_strips` is 1.
pub fn horizontal_strips(photon_image: &mut PhotonImage, num_strips: u8)
    requires
        old(photon_image).wf(),
        1 <= num_strips <= 127,
        num_strips > 1 ==> old(photon_image).width >= 1 && old(photon_image).width
            <= 0x7fffffff && old(photon_image).height >= 2 * num_strips - 1 && old(
            photon_image,
        ).height <= 0x7fffffff,
    ensures
        final(photon_image).wf(),
        final(photon_image).width == old(photon_image).width,
        final(photon_image).height == old(photon_image).height,
        final(photon_image).raw_pixels@ == hstrips_seq(
            old(photon_image).raw_pixels@,
            old(photon_image).width,
            old(photon_image).height,
            num_strips,
        ),
{
    let w = photon_image.width;
    let h = photon_image.height;
    let ghost s = photon_image.raw_pixels@;
    let len: usize = photon_image.raw_pixels.len();
    let total: u32 = 2 * (num_strips as u32) - 1;
    let band: u32 = h / total;
    let mut i: u8 = 1;
    while i < num_strips
        invariant
            photon_image.width == w,
            photon_image.height == h,
            photon_image.raw_pixels@.len() == len,
            s.len() == len,
            len == buf_len(w, h),
            1 <= i <= num_strips,
            num_strips <= 127,
            total == 2 * (num_strips as int) - 1,
            band == strip_size(h, num_strips),
            num_strips > 1 ==> w >= 1 && w <= 0x7fffffff && h >= total && h <= 0x7fffffff,
            forall|j: int|
                0 <= j < len ==> photon_image.raw_pixels@[j] == (if strip_covered_below(
                    band as int,
                    i as int,
                    row_of(w, j),
                ) {
                    255u8
                } else {
                    s[j]
                }),
        decreases num_strips - i,
    {
        proof {
            lemma_div_is_ordered(total as int, h as int, total as int);
            lemma_div_multiples_vanish(1, total as int);
            lemma_fundamental_div_mod(h as int, total as int);
            lemma_mod_bound(h as int, total as int);
            assert((2 * (i as int) - 1) * (band as int) + (band as int) <= (total as int) * (
            band as int)) by (nonlinear_arith)
                requires 2 * (i as int) <= total as int && 0 <= band as int;
            assert((total as int) * (band as int) <= h);
        }
        let ry: u32 = (2 * (i as u32) - 1) * band;
        crate::fill::fill_rect_raw(
            &mut photon_image.raw_pixels,
            w,
            h,
            0,
            ry,
            w,
            band,
            255,
            255,
            255,
            255,
        );
        proof {
            assert((2 * (i as int)) * (band as int) == (2 * (i as int) - 1) * (band as int) + (
            band as int)) by (nonlinear_arith);
            let vnew = photon_image.raw_pixels@;
            assert forall|j: int| 0 <= j < len implies vnew[j] == (if strip_covered_below(
                band as int,
                i as int + 1,
                row_of(w, j),
            ) {
                255u8
            } else {
                s[j]
            }) by {
                lemma_byte_decompose(w, h, j);
            }
        }
        i = i + 1;
    }
    proof {
        assert(photon_image.raw_pixels@ =~= hstrips_seq(s, w, h, num_strips));
    }
}

/// Vertical strips: the image divides into `2 * num_strips - 1` equal
/// columns of bands, and every other band is painted solid white (alpha
/// included). Remainder columns from the integer division are untouched,
/// as is everything when `num_strips` is 1.
pub fn vertical_strips(photon_image: &mut PhotonImage, num_strips: u8)
    requires
        old(photon_image).wf(),
        1 <= num_strips <= 127,
        num_strips > 1 ==> old(photon_image).height >= 1 && old(photon_image).height
            <= 0x7fffffff && old(photon_image).width >= 2 * num_strips - 1 && old(
            photon_image,
        ).width <= 0x7fffffff,
    ensures
        final(photon_image).wf(),
        final(photon_image).width == old(photon_image).width,
        final(photon_image).height == old(photon_image).height,
        final(photon_image).raw_pixels@ == vstrips_seq(
            old(photon_image).raw_pixels@,
            old(photon_image).width,
            old(photon_image).height,
            num_strips,
        ),
{
    let w = photon_image.width;
    let h = photon_image.height;
    let ghost s = photon_image.raw_pixels@;
    let len: usize = photon_image.raw_pixels.len();
    let total: u32 = 2 * (num_strips as u32) - 1;
    let band: u32 = w / total;
    let mut i: u8 = 1;
    while i < num_strips
        invariant
            photon_image.width == w,
            photon_image.height == h,
            photon_image.raw_pixels@.len() == len,
            s.len() == len,
            len == buf_len(w, h),
            1 <= i <= num_strips,
            num_strips <= 127,
            total == 2 * (num_strips as int) - 1,
            band == strip_size(w, num_strips),
            num_strips > 1 ==> h >= 1 && h <= 0x7fffffff && w >= total && w <= 0x7fffffff,
            forall|j: int|
                0 <= j < len ==> photon_image.raw_pixels@[j] == (if strip_covered_below(
                    band as int,
                    i as int,
                    col_of(w, j),
                ) {
                    255u8
                } else {
                    s[j]
                }),
        decreases num_strips - i,
    {
        proof {
            lemma_div_is_ordered(total as int, w as int, total as int);
            lemma_div_multiples_vanish(1, total as int);
            lemma_fundamental_div_mod(w as int, total as int);
            lemma_mod_bound(w as int, total as int);
            assert((2 * (i as int) - 1) * (band as int) + (band as int) <= (total as int) * (
            band as int)) by (nonlinear_arith)
                requires 2 * (i as int) <= total as int && 0 <= band as int;
            assert((total as int) * (band as int) <= w);
        }
        let rx: u32 = (2 * (i as u32) - 1) * band;
        crate::fill::fill_rect_raw(
            &mut photon_image.raw_pixels,
            w,
            h,
            rx,
            0,
            band,
            h,
            255,
            255,
            255,
            255,
        );
        proof {
            assert((2 * (i as int)) * (band as int) == (2 * (i as int) - 1) * (band as int) + (
            band as int)) by (nonlinear_arith);
            let vnew = photon_image.raw_pixels@;
            assert forall|j: int| 0 <= j < len implies vnew[j] == (if strip_covered_below(
                band as int,
                i as int + 1,
                col_of(w, j),
            ) {
                255u8
            } else {
                s[j]
            }) by {
                lemma_byte_decompose(w, h, j);
            }
        }
        i = i + 1;
    }
    proof {
        assert(photon_image.raw_pixels@ =~= vstrips_seq(s, w, h, num_strips));
    }
}

/// One entry of the contrast lookup table, computed in exact integer
/// arithmetic: `clamp((i - 128) * factor + 128, 0, 255)` rounded down.
fn contrast_lut_entry(cc: i32, i: usize) -> (r: u8)
    requires
        -255 <= cc <= 255,
        i < 256,
    ensures
        r == contrast_entry(cc as int, i as int),
{
    let k: u64 = (259 * ((cc + 255) as u32)) as u64;
    let den: u64 = (255 * ((259 - cc) as u32)) as u64;
    if i >= 128 {
        let m: u64 = (i - 128) as u64;
        proof {
            assert(m * k <= 127 * 132090) by (nonlinear_arith)
                requires m <= 127 && k <= 132090;
        }
        let num: u64 = m * k;
        let q: u64 = num / den;
        let val: u64 = q + 128;
        if val > 255 {
            255
        } else {
            val as u8
        }
    } else {
        let m: u64 = (128 - i) as u64;
        proof {
            assert(m * k <= 128 * 132090) by (nonlinear_arith)
                requires m <= 128 && k <= 132090;
        }
        let a: u64 = m * k;
        let ceil_q: u64 = (a + den - 1) / den;
        proof {
            lemma_neg_div_ceil(a as int, den as int);
            assert((i as int - 128) * (259 * ((cc as int) + 255)) == -((a as u64) as int))
                by (nonlinear_arith)
                requires (a as u64) as int == (128 - i as int) * (259 * ((cc as int) + 255));
        }
        if ceil_q >= 128 {
            0
        } else {
            (128 - ceil_q) as u8
        }
    }
}

/// Adjusts the contrast of the image: the contrast parameter is clamped to
/// `[-255, 255]`, a 256-entry lookup table is built from it, and R, G and B
/// of every pixel pass through the table; alpha is untouched.
pub fn adjust_contrast(photon_image: &mut PhotonImage, contrast: i32)
    requires
        old(photon_image).wf(),
    ensures
        final(photon_image).wf(),
        final(photon_image).width == old(photon_image).width,
        final(photon_image).height == old(photon_image).height,
        final(photon_image).raw_pixels@ == contrast_seq(
            old(photon_image).raw_pixels@,
            clamp_int(contrast as int, -255, 255),
        ),
{
    let cc: i32 = if contrast < -255 {
        -255
    } else if contrast > 255 {
        255
    } else {
        contrast
    };
    let mut table: Vec<u8> = Vec::new();
    let mut t: usize = 0;
    while t < 256
        invariant
            -255 <= cc <= 255,
            cc == clamp_int(contrast as int, -255, 255),
            table@.len() == t,
            t <= 256,
            forall|u: int| 0 <= u < t ==> table@[u] == contrast_entry(cc as int, u),
        decreases 256 - t,
    {
        table.push(contrast_lut_entry(cc, t));
        t = t + 1;
    }
    let ghost s = photon_image.raw_pixels@;
    let ghost w0 = photon_image.width;
    let ghost h0 = photon_image.height;
    let len: usize = photon_image.raw_pixels.len();
    let mut i: usize = 0;
    while i < len
        invariant
            photon_image.raw_pixels@.len() == len,
            photon_image.width == w0,
            photon_image.height == h0,
            s.len() == len,
            i <= len,
            cc == clamp_int(contrast as int, -255, 255),
            table@.len() == 256,
            forall|u: int| 0 <= u < 256 ==> table@[u] == contrast_entry(cc as int, u),
            forall|j: int|
                0 <= j < len ==> photon_image.raw_pixels@[j] == (if j < i && j % 4 < 3 {
                    contrast_entry(cc as int, s[j] as int)
                } else {
                    s[j]
                }),
        decreases len - i,
    {
        if i % 4 != 3 {
            let v = photon_image.raw_pixels[i];
            let nv = table[v as usize];
            photon_image.raw_pixels.set(i, nv);
        }
        i = i + 1;
    }
    proof {
        assert(photon_image.raw_pixels@ =~= contrast_seq(s, clamp_int(contrast as int, -255, 255)));
    }
}

/// One window statistic of the Kuwahara filter's first pass: the three
/// channel means and the scaled variance of one window.
#[derive(Clone, Copy)]
pub struct WinStat {
    pub r: u8,
    pub g: u8,
    pub b: u8,
    pub var: u128,
}

/// The statistic as the model's integer tuple.
pub open spec fn stat_tuple(st: WinStat) -> (int, int, int, int) {
    (st.r as int, st.g as int, st.b as int, st.var as int)
}

/// The optional statistic as the model's optional integer tuple.
pub open spec fn opt_stat(o: Option<WinStat>) -> Option<(int, int, int, int)> {
    match o {
        Some(st) => Some(stat_tuple(st)),
        None => None,
    }
}

/// Whether `st` is the statistic of the `k x k` window anchored at `(x, y)`.
pub open spec fn stat_ok(s: Seq<u8>, w: u32, x: int, y: int, k: nat, st: WinStat) -> bool {
    stat_tuple(st) == kuw_stat(s, w, x, y, k)
}

/// Computes the statistic of the `k x k` window anchored at `(x, y)`:
/// channel sums, their rounded-down means, then the total sum of squared
/// deviations from those means.
fn window_stat(pixels: &Vec<u8>, w: u32, h: u32, x: u32, y: u32, k: u32, len: usize) -> (st:
    WinStat)
    requires
        pixels@.len() == len,
        len == buf_len(w, h),
        1 <= k,
        x + k <= w,
        y + k <= h,
    ensures
        stat_ok(pixels@, w, x as int, y as int, k as nat, st),
{
    let ghost s = pixels@;
    let ghost kn = k as nat;
    let mut sum_r: u128 = 0;
    let mut sum_g: u128 = 0;
    let mut sum_b: u128 = 0;
    let mut row: u32 = 0;
    while row < k
        invariant
            pixels@ == s,
            s.len() == len,
            len == buf_len(w, h),
            1 <= k <= 0xffffffff,
            kn == k as nat,
            x + k <= w,
            y + k <= h,
            row <= k,
            sum_r == win_sum(s, w, x as int, y as int, row as nat, kn, 0),
            sum_g == win_sum(s, w, x as int, y as int, row as nat, kn, 1),
            sum_b == win_sum(s, w, x as int, y as int, row as nat, kn, 2),
        decreases k - row,
    {
        let mut col: u32 = 0;
        while col < k
            invariant
                pixels@ == s,
                s.len() == len,
                len == buf_len(w, h),
                1 <= k <= 0xffffffff,
                kn == k as nat,
                x + k <= w,
                y + k <= h,
                row < k,
                col <= k,
                sum_r == win_sum(s, w, x as int, y as int, row as nat, kn, 0) + row_sum(
                    s,
                    w,
                    x as int,
                    y + row,
                    col as nat,
                    0,
                ),
                sum_g == win_sum(s, w, x as int, y as int, row as nat, kn, 1) + row_sum(
                    s,
                    w,
                    x as int,
                    y + row,
                    col as nat,
                    1,
                ),
                sum_b == win_sum(s, w, x as int, y as int, row as nat, kn, 2) + row_sum(
                    s,
                    w,
                    x as int,
                    y + row,
                    col as nat,
                    2,
                ),
            decreases k - col,
        {
            proof {
                lemma_win_sum_bounds(s, w, x as int, y as int, row as nat, kn, 0);
                lemma_win_sum_bounds(s, w, x as int, y as int, row as nat, kn, 1);
                lemma_win_sum_bounds(s, w, x as int, y as int, row as nat, kn, 2);
                lemma_row_sum_bounds(s, w, x as int, y + row, col as nat, 0);
                lemma_row_sum_bounds(s, w, x as int, y + row, col as nat, 1);
                lemma_row_sum_bounds(s, w, x as int, y + row, col as nat, 2);
                assert((row as int) * (k as int) + (col as int) + 1 <= (k as int) * (k as int))
                    by (nonlinear_arith)
                    requires 0 <= row < k && 0 <= col < k;
                assert((k as int) * (k as int) <= 0x10000000000000000) by (nonlinear_arith)
                    requires 0 <= k <= 0xffffffff;
            }
            let i0 = pix_index(w, h, x + col, y + row, 0, len);
            let r = pixels[i0];
            let i1 = pix_index(w, h, x + col, y + row, 1, len);
            let g = pixels[i1];
            let i2 = pix_index(w, h, x + col, y + row, 2, len);
            let b = pixels[i2];
            sum_r = sum_r + (r as u128);
            sum_g = sum_g + (g as u128);
            sum_b = sum_b + (b as u128);
            col = col + 1;
        }
        row = row + 1;
    }
    proof {
        assert(1 <= (k as int) * (k as int) && (k as int) * (k as int) <= 0xfffffffe00000001)
            by (nonlinear_arith)
            requires 1 <= k && k <= 0xffffffff;
        lemma_win_avg_range(s, w, x as int, y as int, kn, 0);
        lemma_win_avg_range(s, w, x as int, y as int, kn, 1);
        lemma_win_avg_range(s, w, x as int, y as int, kn, 2);
    }
    let k2: u64 = (k as u64) * (k as u64);
    let ar: u8 = (sum_r / (k2 as u128)) as u8;
    let ag: u8 = (sum_g / (k2 as u128)) as u8;
    let ab: u8 = (sum_b / (k2 as u128)) as u8;
    proof {
        assert(ar == win_avg(s, w, x as int, y as int, kn, 0));
        assert(ag == win_avg(s, w, x as int, y as int, kn, 1));
        assert(ab == win_avg(s, w, x as int, y as int, kn, 2));
    }
    let mut dev: u128 = 0;
    let mut row2: u32 = 0;
    while row2 < k
        invariant
            pixels@ == s,
            s.len() == len,
            len == buf_len(w, h),
            1 <= k <= 0xffffffff,
            kn == k as nat,
            x + k <= w,
            y + k <= h,
            row2 <= k,
            ar == win_avg(s, w, x as int, y as int, kn, 0),
            ag == win_avg(s, w, x as int, y as int, kn, 1),
            ab == win_avg(s, w, x as int, y as int, kn, 2),
            dev == win_dev_sum(s, w, x as int, y as int, row2 as nat, kn, ar as int, ag as int, ab as int),
        decreases k - row2,
    {
        let mut col2: u32 = 0;
        while col2 < k
            invariant
                pixels@ == s,
                s.len() == len,
                len == buf_len(w, h),
                1 <= k <= 0xffffffff,
                kn == k as nat,
                x + k <= w,
                y + k <= h,
                row2 < k,
                col2 <= k,
                ar == win_avg(s, w, x as int, y as int, kn, 0),
                ag == win_avg(s, w, x as int, y as int, kn, 1),
                ab == win_avg(s, w, x as int, y as int, kn, 2),
                dev == win_dev_sum(s, w, x as int, y as int, row2 as nat, kn, ar as int, ag as int, ab as int)
                    + row_dev_sum(s, w, x as int, y + row2, col2 as nat, ar as int, ag as int, ab as int),
            decreases k - col2,
        {
            proof {
                lemma_win_dev_bounds(
                    s,
                    w,
                    x as int,
                    y as int,
                    row2 as nat,
                    kn,
                    ar as int,
                    ag as int,
                    ab as int,
                );
                lemma_row_dev_bounds(
                    s,
                    w,
                    x as int,
                    y + row2,
                    col2 as nat,
                    ar as int,
                    ag as int,
                    ab as int,
                );
                assert((row2 as int) * (k as int) + (col2 as int) + 1 <= (k as int) * (k as int))
                    by (nonlinear_arith)
                    requires 0 <= row2 < k && 0 <= col2 < k;
                assert((k as int) * (k as int) <= 0x10000000000000000) by (nonlinear_arith)
                    requires 0 <= k <= 0xffffffff;
            }
            let i0 = pix_index(w, h, x + col2, y + row2, 0, len);
            let r = pixels[i0];
            let i1 = pix_index(w, h, x + col2, y + row2, 1, len);
            let g = pixels[i1];
            let i2 = pix_index(w, h, x + col2, y + row2, 2, len);
            let b = pixels[i2];
            let dr: u64 = if r >= ar {
                (r - ar) as u64
            } else {
                (ar - r) as u64
            };
            let dg: u64 = if g >= ag {
                (g - ag) as u64
            } else {
                (ag - g) as u64
            };
            let db: u64 = if b >= ab {
                (b - ab) as u64
            } else {
                (ab - b) as u64
            };
            proof {
                assert((dr as int) * (dr as int) == ((r as int) - (ar as int)) * ((r as int) - (
                ar as int)) && dr * dr <= 65025) by (nonlinear_arith)
                    requires
                        0 <= dr <= 255 && ((dr as int) == (r as int) - (ar as int) || (dr as int)
                            == (ar as int) - (r as int));
                assert((dg as int) * (dg as int) == ((g as int) - (ag as int)) * ((g as int) - (
                ag as int)) && dg * dg <= 65025) by (nonlinear_arith)
                    requires
                        0 <= dg <= 255 && ((dg as int) == (g as int) - (ag as int) || (dg as int)
                            == (ag as int) - (g as int));
                assert((db as int) * (db as int) == ((b as int) - (ab as int)) * ((b as int) - (
                ab as int)) && db * db <= 65025) by (nonlinear_arith)
                    requires
                        0 <= db <= 255 && ((db as int) == (b as int) - (ab as int) || (db as int)
                            == (ab as int) - (b as int));
            }
            let dd: u64 = dr * dr + dg * dg + db * db;
            proof {
                assert(dd == sq_dev(
                    s,
                    w,
                    x + col2,
                    y + row2,
                    ar as int,
                    ag as int,
                    ab as int,
                ));
            }
            dev = dev + (dd as u128);
            col2 = col2 + 1;
        }
        row2 = row2 + 1;
    }
    WinStat { r: ar, g: ag, b: ab, var: dev }
}

/// Looks one window statistic up in the first-pass work buffer, which holds
/// the `gw`-wide anchor grid row-major.
fn stat_at(
    work: &Vec<WinStat>,
    gw: u32,
    bx: u32,
    by: u32,
    Ghost(s): Ghost<Seq<u8>>,
    Ghost(w): Ghost<u32>,
    Ghost(k): Ghost<nat>,
) -> (st: WinStat)
    requires
        bx < gw,
        (by as int) * (gw as int) + (bx as int) < work@.len(),
        forall|t: int|
            0 <= t < work@.len() ==> stat_ok(s, w, t % (gw as int), t / (gw as int), k, work@[t]),
    ensures
        stat_ok(s, w, bx as int, by as int, k, st),
{
    let n: usize = work.len();
    proof {
        lemma_mul_nonnegative(by as int, gw as int);
        lemma_fundamental_div_mod_converse(
            (by as int) * (gw as int) + (bx as int),
            gw as int,
            by as int,
            bx as int,
        );
        assert((by as int) * (gw as int) <= (by as int) * (gw as int) + (bx as int));
    }
    let t64: u64 = (by as u64) * (gw as u64) + (bx as u64);
    proof {
        assert(t64 < n as u64);
    }
    let t = t64 as usize;
    work[t]
}

/// Of two optional window statistics, the one of smaller variance; exact
/// ties keep the left operand.
fn min_stat(a: Option<WinStat>, b: Option<WinStat>) -> (r: Option<WinStat>)
    ensures
        opt_stat(r) == crate::model::opt_min_var(opt_stat(a), opt_stat(b)),
{
    match (a, b) {
        (Some(sa), Some(sb)) => if sa.var <= sb.var {
            Some(sa)
        } else {
            Some(sb)
        },
        (Some(sa), None) => Some(sa),
        (None, Some(sb)) => Some(sb),
        (None, None) => None,
    }
}

/// Kuwahara edge-preserving smoothing. `num` sets the window extent: each
/// window is a square of `num + 1` pixels a side. The first pass stores
/// every window's channel means and variance; the second gives each pixel
/// the means of the least-varying window touching it, ties preferring
/// top-left, then left. The window must fit beside every pixel, so `num`
/// may reach at most half of either dimension.
pub fn kuwahara(photon_image: &mut PhotonImage, num: u32)
    requires
        old(photon_image).wf(),
        2 * (num as int) <= old(photon_image).width,
        2 * (num as int) <= old(photon_image).height,
    ensures
        final(photon_image).wf(),
        final(photon_image).width == old(photon_image).width,
        final(photon_image).height == old(photon_image).height,
        final(photon_image).raw_pixels@ == kuwahara_seq(
            old(photon_image).raw_pixels@,
            old(photon_image).width,
            old(photon_image).height,
            num,
        ),
{
    let w = photon_image.width;
    let h = photon_image.height;
    let ghost s = photon_image.raw_pixels@;
    let len: usize = photon_image.raw_pixels.len();
    let k: u32 = num + 1;
    let gw: u32 = w - num;
    let gh: u32 = h - num;
    let mut work: Vec<WinStat> = Vec::new();
    let mut ay: u32 = 0;
    while ay < gh
        invariant
            photon_image.width == w,
            photon_image.height == h,
            photon_image.raw_pixels@ == s,
            s.len() == len,
            len == buf_len(w, h),
            2 * (num as int) <= w,
            2 * (num as int) <= h,
            k == num + 1,
            gw == w - num,
            gh == h - num,
            ay <= gh,
            work@.len() == (ay as int) * (gw as int),
            forall|t: int|
                0 <= t < work@.len() ==> stat_ok(
                    s,
                    w,
                    t % (gw as int),
                    t / (gw as int),
                    (num + 1) as nat,
                    work@[t],
                ),
        decreases gh - ay,
    {
        let mut ax: u32 = 0;
        while ax < gw
            invariant
                photon_image.width == w,
                photon_image.height == h,
                photon_image.raw_pixels@ == s,
                s.len() == len,
                len == buf_len(w, h),
                2 * (num as int) <= w,
                2 * (num as int) <= h,
                k == num + 1,
                gw == w - num,
                gh == h - num,
                ay < gh,
                ax <= gw,
                work@.len() == (ay as int) * (gw as int) + (ax as int),
                forall|t: int|
                    0 <= t < work@.len() ==> stat_ok(
                        s,
                        w,
                        t % (gw as int),
                        t / (gw as int),
                        (num + 1) as nat,
                        work@[t],
                    ),
            decreases gw - ax,
        {
            let st = window_stat(&photon_image.raw_pixels, w, h, ax, ay, k, len);
            proof {
                lemma_mul_nonnegative(ay as int, gw as int);
                lemma_fundamental_div_mod_converse(
                    (ay as int) * (gw as int) + (ax as int),
                    gw as int,
                    ay as int,
                    ax as int,
                );
            }
            work.push(st);
            ax = ax + 1;
        }
        proof {
            assert(((ay as int) + 1) * (gw as int) == (ay as int) * (gw as int) + (gw as int))
                by (nonlinear_arith);
        }
        ay = ay + 1;
    }
    let ghost ks = kuwahara_seq(s, w, h, num);
    let mut y: u32 = 0;
    while y < h
        invariant
            photon_image.width == w,
            photon_image.height == h,
            photon_image.raw_pixels@.len() == len,
            s.len() == len,
            len == buf_len(w, h),
            2 * (num as int) <= w,
            2 * (num as int) <= h,
            k == num + 1,
            gw == w - num,
            gh == h - num,
            work@.len() == (gh as int) * (gw as int),
            forall|t: int|
                0 <= t < work@.len() ==> stat_ok(
                    s,
                    w,
                    t % (gw as int),
                    t / (gw as int),
                    (num + 1) as nat,
                    work@[t],
                ),
            ks == kuwahara_seq(s, w, h, num),
            ks.len() == len,
            y <= h,
            forall|j: int|
                0 <= j < len ==> photon_image.raw_pixels@[j] == (if row_of(w, j) < y {
                    ks[j]
                } else {
                    s[j]
                }),
        decreases h - y,
    {
        let mut x: u32 = 0;
        while x < w
            invariant
                photon_image.width == w,
                photon_image.height == h,
                photon_image.raw_pixels@.len() == len,
                s.len() == len,
                len == buf_len(w, h),
                2 * (num as int) <= w,
                2 * (num as int) <= h,
                k == num + 1,
                gw == w - num,
                gh == h - num,
                work@.len() == (gh as int) * (gw as int),
                forall|t: int|
                    0 <= t < work@.len() ==> stat_ok(
                        s,
                        w,
                        t % (gw as int),
                        t / (gw as int),
                        (num + 1) as nat,
                        work@[t],
                    ),
                ks == kuwahara_seq(s, w, h, num),
                ks.len() == len,
                y < h,
                x <= w,
                forall|j: int|
                    0 <= j < len ==> photon_image.raw_pixels@[j] == (if row_of(w, j) < y || (row_of(
                        w,
                        j,
                    ) == y && col_of(w, j) < x) {
                        ks[j]
                    } else {
                        s[j]
                    }),
            decreases w - x,
        {
            let tl: Option<WinStat> = if x >= num && y >= num {
                proof {
                    assert(((y - num) as int) * (gw as int) + ((x - num) as int) < (gh as int) * (
                    gw as int)) by (nonlinear_arith)
                        requires
                            ((y - num) as int) < (gh as int) && ((x - num) as int) < (gw as int)
                                && num <= x && num <= y;
                }
                Some(stat_at(&work, gw, x - num, y - num, Ghost(s), Ghost(w), Ghost((num + 1) as nat)))
            } else {
                None
            };
            let tr: Option<WinStat> = if x < w - num && y >= num {
                proof {
                    assert(((y - num) as int) * (gw as int) + (x as int) < (gh as int) * (
                    gw as int)) by (nonlinear_arith)
                        requires
                            ((y - num) as int) < (gh as int) && (x as int) < (gw as int) && num
                                <= y;
                }
                Some(stat_at(&work, gw, x, y - num, Ghost(s), Ghost(w), Ghost((num + 1) as nat)))
            } else {
                None
            };
            let bl: Option<WinStat> = if x >= num && y < h - num {
                proof {
                    assert((y as int) * (gw as int) + ((x - num) as int) < (gh as int) * (
                    gw as int)) by (nonlinear_arith)
                        requires
                            (y as int) < (gh as int) && ((x - num) as int) < (gw as int) && num
                                <= x;
                }
                Some(stat_at(&work, gw, x - num, y, Ghost(s), Ghost(w), Ghost((num + 1) as nat)))
            } else {
                None
            };
            let br: Option<WinStat> = if x < w - num && y < h - num {
                proof {
                    assert((y as int) * (gw as int) + (x as int) < (gh as int) * (gw as int))
                        by (nonlinear_arith)
                        requires (y as int) < (gh as int) && (x as int) < (gw as int);
                }
                Some(stat_at(&work, gw, x, y, Ghost(s), Ghost(w), Ghost((num + 1) as nat)))
            } else {
                None
            };
            proof {
                assert(opt_stat(tl) == cand_tl(s, w, h, num, x as int, y as int));
                assert(opt_stat(tr) == cand_tr(s, w, h, num, x as int, y as int));
                assert(opt_stat(bl) == cand_bl(s, w, h, num, x as int, y as int));
                assert(opt_stat(br) == cand_br(s, w, h, num, x as int, y as int));
            }
            let top = min_stat(tl, tr);
            let bot = min_stat(bl, br);
            let sel = min_stat(top, bot);
            proof {
                assert(opt_stat(sel) == kuw_pick(s, w, h, num, x as int, y as int));
                assert(x as int >= num || (x as int) < w - num);
                assert(y as int >= num || (y as int) < h - num);
                assert(sel.is_some());
            }
            let st = sel.unwrap();
            let ghost vpre = photon_image.raw_pixels@;
            let d0 = pix_index(w, h, x, y, 0, len);
            photon_image.raw_pixels.set(d0, st.r);
            let d1 = pix_index(w, h, x, y, 1, len);
            photon_image.raw_pixels.set(d1, st.g);
            let d2 = pix_index(w, h, x, y, 2, len);
            photon_image.raw_pixels.set(d2, st.b);
            proof {
                let vnew = photon_image.raw_pixels@;
                assert forall|j: int| 0 <= j < len implies vnew[j] == (if row_of(w, j) < y || (
                row_of(w, j) == y && col_of(w, j) < x + 1) {
                    ks[j]
                } else {
                    s[j]
                }) by {
                    lemma_byte_decompose(w, h, j);
                    let jx = col_of(w, j);
                    let jy = row_of(w, j);
                    let jc = chan_of(j);
                    if jx == x && jy == y && jc < 3 {
                        assert(j == pix_at(w, x as int, y as int, jc));
                        assert(ks[j] == vnew[j]);
                    } else {
                        assert(j != pix_at(w, x as int, y as int, 0) && j != pix_at(
                            w,
                            x as int,
                            y as int,
                            1,
                        ) && j != pix_at(w, x as int, y as int, 2)) by {
                            lemma_pix_at_inverse(w, x as int, y as int, 0);
                            lemma_pix_at_inverse(w, x as int, y as int, 1);
                            lemma_pix_at_inverse(w, x as int, y as int, 2);
                        }
                        assert(vnew[j] == vpre[j]);
                        if jx == x && jy == y {
                            assert(ks[j] == s[j]);
                        }
                    }
                }
            }
            x = x + 1;
        }
        y = y + 1;
    }
    proof {
        assert forall|j: int| 0 <= j < len implies photon_image.raw_pixels@[j] == ks[j] by {
            assert(1 <= w && 1 <= h) by (nonlinear_arith)
                requires len == (w as int) * (h as int) * 4 && 0 < len;
            lemma_byte_decompose(w, h, j);
        }
        assert(photon_image.raw_pixels@ =~= ks);
    }
}

} // verus!
