//! Laws that hold of the effects, proved once and for all: the identity
//! effects at their neutral parameters and the shape of the contrast table.

use crate::model::{
    buf_len, chan_of, col_of, contrast_entry, hstrips_seq, kuwahara_seq, lemma_byte_decompose,
    offset_seq, offset_writes, pix_at, row_of, strip_covers, vstrips_seq,
};
use vstd::arithmetic::div_mod::{lemma_div_is_ordered, lemma_div_multiples_vanish};
use vstd::arithmetic::mul::lemma_mul_inequality;
use vstd::prelude::*;

verus! {

/// A brightness increase of zero changes no byte of any buffer.
pub proof fn lemma_brightness_zero_identity(s: Seq<u8>)
    ensures
        crate::model::brightness_seq(s, 0) == s,
{
    assert(crate::model::brightness_seq(s, 0) =~= s);
}

/// A channel offset of zero changes no byte of any well-formed buffer: the
/// source pixel of every written pixel is the pixel itself.
pub proof fn lemma_offset_zero_identity(s: Seq<u8>, w: u32, h: u32, c: int)
    requires
        s.len() == buf_len(w, h),
    ensures
        offset_seq(s, w, h, c, 0) == s,
{
    assert forall|j: int| 0 <= j < s.len() implies offset_seq(s, w, h, c, 0)[j] == s[j] by {
        assert(1 <= w && 1 <= h) by (nonlinear_arith)
            requires s.len() == (w as int) * (h as int) * 4 && 0 < s.len();
        lemma_byte_decompose(w, h, j);
        if chan_of(j) == c && offset_writes(w, h, 0, j) {
            assert(pix_at(w, col_of(w, j) + 0, row_of(w, j) + 0, c) == j);
        }
    }
    assert(offset_seq(s, w, h, c, 0) =~= s);
}

/// The contrast lookup table is monotonically non-decreasing in its input.
pub proof fn lemma_contrast_table_monotone(c: int, i1: int, i2: int)
    requires
        0 <= c <= 255,
        0 <= i1 <= i2 <= 255,
    ensures
        contrast_entry(c, i1) <= contrast_entry(c, i2),
{
    let k = 259 * (c + 255);
    let den = 255 * (259 - c);
    lemma_mul_inequality(i1 - 128, i2 - 128, k);
    lemma_div_is_ordered((i1 - 128) * k, (i2 - 128) * k, den);
}

/// A Kuwahara window extent of zero leaves any well-formed buffer
/// unchanged: every candidate window is the pixel itself, with its own
/// channel values as means.
pub proof fn lemma_kuwahara_zero_identity(s: Seq<u8>, w: u32, h: u32)
    requires
        s.len() == buf_len(w, h),
    ensures
        kuwahara_seq(s, w, h, 0) == s,
{
    assert forall|j: int| 0 <= j < s.len() implies kuwahara_seq(s, w, h, 0)[j] == s[j] by {
        assert(1 <= w && 1 <= h) by (nonlinear_arith)
            requires s.len() == (w as int) * (h as int) * 4 && 0 < s.len();
        lemma_byte_decompose(w, h, j);
        let x = col_of(w, j);
        let y = row_of(w, j);
        let ch = chan_of(j);
        assert forall|cc: int| 0 <= cc < 3 implies crate::model::win_avg(s, w, x, y, 1, cc)
            == s[pix_at(w, x, y, cc)] by {
            let v = crate::model::win_sum(s, w, x, y, 1, 1, cc);
            assert(crate::model::row_sum(s, w, x, y, 0, cc) == 0);
            assert(crate::model::row_sum(s, w, x, y, 1, cc) == s[pix_at(w, x, y, cc)]);
            assert(crate::model::win_sum(s, w, x, y, 0, 1, cc) == 0);
            assert(v == s[pix_at(w, x, y, cc)]);
            lemma_div_multiples_vanish(v, 1);
        }
        if ch < 3 {
            assert(pix_at(w, x, y, ch) == j);
        }
    }
    assert(kuwahara_seq(s, w, h, 0) =~= s);
}

/// A strip overlay of a single strip paints nothing: there is no band to
/// paint, so any buffer is unchanged, along either axis.
pub proof fn lemma_strips_one_identity(s: Seq<u8>, w: u32, h: u32)
    ensures
        hstrips_seq(s, w, h, 1) == s,
        vstrips_seq(s, w, h, 1) == s,
{
    assert forall|j: int| 0 <= j < s.len() implies hstrips_seq(s, w, h, 1)[j] == s[j] && vstrips_seq(
        s,
        w,
        h,
        1,
    )[j] == s[j] by {
        assert(!strip_covers(h, 1, row_of(w, j)));
        assert(!strip_covers(w, 1, col_of(w, j)));
    }
    assert(hstrips_seq(s, w, h, 1) =~= s);
    assert(vstrips_seq(s, w, h, 1) =~= s);
}

} // verus!
