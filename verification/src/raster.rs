//! Tightly packed row-major RGBA rasters and the pixel-exact operations the
//! compositor needs: a zeroed canvas, overlay (later image wins), sub-rectangle
//! extraction, and nearest-neighbor resampling.

use vstd::prelude::*;
use vstd::arithmetic::div_mod::{lemma_div_pos_is_pos, lemma_multiply_divide_lt};

verus! {

/// Flat index of channel `c` of pixel `(x, y)` in a row-major RGBA buffer of
/// width `w`.
pub open spec fn pix_idx(w: int, x: int, y: int, c: int) -> int {
    (y * w + x) * 4 + c
}

/// Flat index of channel `c` of pixel `x` within one RGBA row.
pub open spec fn row_idx(x: int, c: int) -> int {
    4 * x + c
}

/// A tightly packed row-major RGBA raster.
#[derive(Debug, PartialEq)]
pub struct Image {
    pub width: u32,
    pub height: u32,
    pub data: Vec<u8>,
}

impl Image {
    /// The backing buffer holds exactly four bytes per pixel.
    pub open spec fn wf(self) -> bool {
        self.data@.len() == self.width * self.height * 4
    }

    /// Channel `c` (0 = R, 1 = G, 2 = B, 3 = A) of pixel `(x, y)`.
    pub open spec fn pix(self, x: int, y: int, c: int) -> u8 {
        self.data@[pix_idx(self.width as int, x, y, c)]
    }
}

pub(crate) proof fn lemma_pix_idx_bound(w: int, h: int, x: int, y: int, c: int)
    by (nonlinear_arith)
    requires
        0 <= x < w,
        0 <= y < h,
        0 <= c < 4,
    ensures
        0 <= y * w,
        y * w + x < w * h,
        0 <= (y * w + x) * 4 + c,
        (y * w + x) * 4 + c < w * h * 4,
{
}

pub(crate) proof fn lemma_row_decompose(w: int, x: int, y: int, c: int)
    by (nonlinear_arith)
    ensures
        (y * w + x) * 4 + c == y * (w * 4) + (4 * x + c),
{
}

pub(crate) proof fn lemma_row_below(w: int, x: int, y_lo: int, y_hi: int, c: int)
    by (nonlinear_arith)
    requires
        0 <= x < w,
        0 <= c < 4,
        0 <= y_lo < y_hi,
    ensures
        0 <= (y_lo * w + x) * 4 + c,
        (y_lo * w + x) * 4 + c < y_hi * (w * 4),
{
}

pub(crate) proof fn lemma_total_size(w: int, h: int)
    by (nonlinear_arith)
    ensures
        h * (w * 4) == w * h * 4,
{
}

/// Read one channel of one pixel.
pub fn read_pix(img: &Image, x: u32, y: u32, c: u32) -> (b: u8)
    requires
        img.wf(),
        x < img.width,
        y < img.height,
        c < 4,
    ensures
        b == img.pix(x as int, y as int, c as int),
{
    proof {
        lemma_pix_idx_bound(img.width as int, img.height as int, x as int, y as int, c as int);
    }
    let n = img.data.len();
    let idx: u64 = ((y as u64) * (img.width as u64) + (x as u64)) * 4 + (c as u64);
    img.data[idx as usize]
}

/// A zero-filled canvas: every channel of every pixel is 0.
pub fn blank_image(width: u32, height: u32) -> (out: Image)
    requires
        width * height * 4 <= usize::MAX,
    ensures
        out.wf(),
        out.width == width,
        out.height == height,
        forall|x: int, y: int, c: int|
            0 <= x < width && 0 <= y < height && 0 <= c < 4 ==> #[trigger] out.pix(x, y, c) == 0,
{
    proof {
        assert((width as int) * (height as int) * 4 <= u128::MAX) by (nonlinear_arith)
            requires
                width <= u32::MAX,
                height <= u32::MAX,
        ;
    }
    let total128 = (width as u128) * (height as u128) * 4;
    let total = total128 as usize;
    let mut data: Vec<u8> = Vec::new();
    while data.len() < total
        invariant
            data@.len() <= total,
            total == width * height * 4,
            forall|j: int| 0 <= j < data@.len() ==> data@[j] == 0,
        decreases total - data@.len(),
    {
        data.push(0);
    }
    let out = Image { width, height, data };
    proof {
        assert forall|x: int, y: int, c: int|
            0 <= x < width && 0 <= y < height && 0 <= c < 4 implies #[trigger] out.pix(x, y, c)
            == 0 by {
            lemma_pix_idx_bound(width as int, height as int, x, y, c);
        };
    }
    out
}

/// The overlay result at one pixel: the placed image where it covers the
/// canvas, the canvas underneath everywhere else.
pub open spec fn overlay_pix(
    base: Image,
    src: Image,
    dx: int,
    dy: int,
    x: int,
    y: int,
    c: int,
) -> u8 {
    if dx <= x < dx + src.width && dy <= y < dy + src.height {
        src.pix(x - dx, y - dy, c)
    } else {
        base.pix(x, y, c)
    }
}

fn overlay_row(base: &Image, src: &Image, dx: u32, dy: u32, y: u32) -> (row: Vec<u8>)
    requires
        base.wf(),
        src.wf(),
        y < base.height,
    ensures
        row@.len() == base.width * 4,
        forall|x: int, c: int|
            0 <= x < base.width && 0 <= c < 4 ==> row@[row_idx(x, c)] == overlay_pix(
                *base,
                *src,
                dx as int,
                dy as int,
                x,
                y as int,
                c,
            ),
{
    let w = base.width;
    let mut row: Vec<u8> = Vec::new();
    let mut x: u32 = 0;
    while x < w
        invariant
            base.wf(),
            src.wf(),
            y < base.height,
            w == base.width,
            0 <= x <= w,
            row@.len() == 4 * x,
            forall|x2: int, c: int|
                0 <= x2 < x && 0 <= c < 4 ==> row@[row_idx(x2, c)] == overlay_pix(
                    *base,
                    *src,
                    dx as int,
                    dy as int,
                    x2,
                    y as int,
                    c,
                ),
        decreases w - x,
    {
        let in_src = x >= dx && y >= dy && x - dx < src.width && y - dy < src.height;
        if in_src {
            let sx = x - dx;
            let sy = y - dy;
            row.push(read_pix(src, sx, sy, 0));
            row.push(read_pix(src, sx, sy, 1));
            row.push(read_pix(src, sx, sy, 2));
            row.push(read_pix(src, sx, sy, 3));
        } else {
            row.push(read_pix(base, x, y, 0));
            row.push(read_pix(base, x, y, 1));
            row.push(read_pix(base, x, y, 2));
            row.push(read_pix(base, x, y, 3));
        }
        x = x + 1;
    }
    row
}

/// Place `src` over `base` with its top-left corner at `(dx, dy)`, clipping
/// whatever falls outside the canvas; the placed image wins where it covers.
pub fn overlay_image(base: &Image, src: &Image, dx: u32, dy: u32) -> (out: Image)
    requires
        base.wf(),
        src.wf(),
    ensures
        out.wf(),
        out.width == base.width,
        out.height == base.height,
        forall|x: int, y: int, c: int|
            0 <= x < base.width && 0 <= y < base.height && 0 <= c < 4 ==> #[trigger] out.pix(
                x,
                y,
                c,
            ) == overlay_pix(*base, *src, dx as int, dy as int, x, y, c),
{
    let w = base.width;
    let h = base.height;
    let mut data: Vec<u8> = Vec::new();
    let mut y: u32 = 0;
    while y < h
        invariant
            base.wf(),
            src.wf(),
            w == base.width,
            h == base.height,
            0 <= y <= h,
            data@.len() == y * (w * 4),
            forall|x2: int, y2: int, c: int|
                0 <= x2 < w && 0 <= y2 < y && 0 <= c < 4 ==> data@[pix_idx(w as int, x2, y2, c)]
                    == overlay_pix(*base, *src, dx as int, dy as int, x2, y2, c),
        decreases h - y,
    {
        let mut row = overlay_row(base, src, dx, dy, y);
        let ghost old_data = data@;
        let ghost row_snap = row@;
        data.append(&mut row);
        proof {
            assert((y + 1) * (w * 4) == y * (w * 4) + (w * 4)) by (nonlinear_arith);
            assert forall|x2: int, y2: int, c: int|
                0 <= x2 < w && 0 <= y2 < y + 1 && 0 <= c < 4 implies data@[pix_idx(
                w as int,
                x2,
                y2,
                c,
            )] == overlay_pix(*base, *src, dx as int, dy as int, x2, y2, c) by {
                if y2 < y {
                    lemma_row_below(w as int, x2, y2, y as int, c);
                    assert(data@[pix_idx(w as int, x2, y2, c)] == old_data[pix_idx(
                        w as int,
                        x2,
                        y2,
                        c,
                    )]);
                } else {
                    lemma_row_decompose(w as int, x2, y as int, c);
                    assert(data@[pix_idx(w as int, x2, y2, c)] == row_snap[row_idx(x2, c)]);
                    assert(row_snap[row_idx(x2, c)] == overlay_pix(
                        *base,
                        *src,
                        dx as int,
                        dy as int,
                        x2,
                        y as int,
                        c,
                    ));
                }
            };
        }
        y = y + 1;
    }
    let out = Image { width: w, height: h, data };
    proof {
        lemma_total_size(w as int, h as int);
    }
    out
}

fn crop_row(base: &Image, cx: u32, cy: u32, cw: u32, y: u32) -> (row: Vec<u8>)
    requires
        base.wf(),
        cx + cw <= base.width,
        cy + y < base.height,
    ensures
        row@.len() == cw * 4,
        forall|x: int, c: int|
            0 <= x < cw && 0 <= c < 4 ==> row@[row_idx(x, c)] == base.pix(
                cx + x,
                cy + y as int,
                c,
            ),
{
    let mut row: Vec<u8> = Vec::new();
    let mut x: u32 = 0;
    while x < cw
        invariant
            base.wf(),
            cx + cw <= base.width,
            cy + y < base.height,
            0 <= x <= cw,
            row@.len() == 4 * x,
            forall|x2: int, c: int|
                0 <= x2 < x && 0 <= c < 4 ==> row@[row_idx(x2, c)] == base.pix(
                    cx + x2,
                    cy + y as int,
                    c,
                ),
        decreases cw - x,
    {
        row.push(read_pix(base, cx + x, cy + y, 0));
        row.push(read_pix(base, cx + x, cy + y, 1));
        row.push(read_pix(base, cx + x, cy + y, 2));
        row.push(read_pix(base, cx + x, cy + y, 3));
        x = x + 1;
    }
    row
}

/// Extract the `cw` by `ch` sub-rectangle whose top-left corner is `(cx, cy)`.
pub fn crop_image(base: &Image, cx: u32, cy: u32, cw: u32, ch: u32) -> (out: Image)
    requires
        base.wf(),
        cx + cw <= base.width,
        cy + ch <= base.height,
    ensures
        out.wf(),
        out.width == cw,
        out.height == ch,
        forall|x: int, y: int, c: int|
            0 <= x < cw && 0 <= y < ch && 0 <= c < 4 ==> #[trigger] out.pix(x, y, c) == base.pix(
                cx + x,
                cy + y,
                c,
            ),
{
    let mut data: Vec<u8> = Vec::new();
    let mut y: u32 = 0;
    while y < ch
        invariant
            base.wf(),
            cx + cw <= base.width,
            cy + ch <= base.height,
            0 <= y <= ch,
            data@.len() == y * (cw * 4),
            forall|x2: int, y2: int, c: int|
                0 <= x2 < cw && 0 <= y2 < y && 0 <= c < 4 ==> data@[pix_idx(cw as int, x2, y2, c)]
                    == base.pix(cx + x2, cy + y2, c),
        decreases ch - y,
    {
        let mut row = crop_row(base, cx, cy, cw, y);
        let ghost old_data = data@;
        let ghost row_snap = row@;
        data.append(&mut row);
        proof {
            assert((y + 1) * (cw * 4) == y * (cw * 4) + (cw * 4)) by (nonlinear_arith);
            assert forall|x2: int, y2: int, c: int|
                0 <= x2 < cw && 0 <= y2 < y + 1 && 0 <= c < 4 implies data@[pix_idx(
                cw as int,
                x2,
                y2,
                c,
            )] == base.pix(cx + x2, cy + y2, c) by {
                if y2 < y {
                    lemma_row_below(cw as int, x2, y2, y as int, c);
                    assert(data@[pix_idx(cw as int, x2, y2, c)] == old_data[pix_idx(
                        cw as int,
                        x2,
                        y2,
                        c,
                    )]);
                } else {
                    lemma_row_decompose(cw as int, x2, y as int, c);
                    assert(data@[pix_idx(cw as int, x2, y2, c)] == row_snap[row_idx(x2, c)]);
                    assert(row_snap[row_idx(x2, c)] == base.pix(cx + x2, cy + y2, c));
                }
            };
        }
        y = y + 1;
    }
    let out = Image { width: cw, height: ch, data };
    proof {
        lemma_total_size(cw as int, ch as int);
    }
    out
}

/// Nearest-neighbor source coordinate for destination coordinate `d` when a
/// dimension of `s_dim` source pixels maps onto `d_dim` destination pixels:
/// the source pixel under the center of the destination pixel.
pub open spec fn nn_src(d: int, s_dim: int, d_dim: int) -> int {
    (2 * d + 1) * s_dim / (2 * d_dim)
}

pub(crate) proof fn lemma_nn_src_bound(d: int, s_dim: int, d_dim: int)
    requires
        0 <= d < d_dim,
        1 <= s_dim,
    ensures
        0 <= nn_src(d, s_dim, d_dim) < s_dim,
{
    assert((2 * d + 1) * s_dim >= 0) by (nonlinear_arith)
        requires
            d >= 0,
            s_dim >= 1,
    ;
    assert((2 * d + 1) * s_dim < (2 * d_dim) * s_dim) by (nonlinear_arith)
        requires
            0 <= d < d_dim,
            s_dim >= 1,
    ;
    lemma_div_pos_is_pos((2 * d + 1) * s_dim, 2 * d_dim);
    lemma_multiply_divide_lt((2 * d + 1) * s_dim, 2 * d_dim, s_dim);
}

fn nn_index(d: u32, s_dim: u32, d_dim: u32) -> (r: u32)
    requires
        d < d_dim,
        1 <= s_dim,
    ensures
        r == nn_src(d as int, s_dim as int, d_dim as int),
        r < s_dim,
{
    proof {
        lemma_nn_src_bound(d as int, s_dim as int, d_dim as int);
        assert((2 * (d as int) + 1) * (s_dim as int) <= u128::MAX) by (nonlinear_arith)
            requires
                d <= u32::MAX,
                s_dim <= u32::MAX,
        ;
    }
    let num = (2 * (d as u128) + 1) * (s_dim as u128);
    let den = 2 * (d_dim as u128);
    (num / den) as u32
}

fn resample_row(src: &Image, dst_w: u32, dst_h: u32, y: u32) -> (row: Vec<u8>)
    requires
        src.wf(),
        src.width >= 1,
        src.height >= 1,
        y < dst_h,
    ensures
        row@.len() == dst_w * 4,
        forall|x: int, c: int|
            0 <= x < dst_w && 0 <= c < 4 ==> row@[row_idx(x, c)] == src.pix(
                nn_src(x, src.width as int, dst_w as int),
                nn_src(y as int, src.height as int, dst_h as int),
                c,
            ),
{
    let sy = nn_index(y, src.height, dst_h);
    let mut row: Vec<u8> = Vec::new();
    let mut x: u32 = 0;
    while x < dst_w
        invariant
            src.wf(),
            src.width >= 1,
            src.height >= 1,
            y < dst_h,
            sy == nn_src(y as int, src.height as int, dst_h as int),
            sy < src.height,
            0 <= x <= dst_w,
            row@.len() == 4 * x,
            forall|x2: int, c: int|
                0 <= x2 < x && 0 <= c < 4 ==> row@[row_idx(x2, c)] == src.pix(
                    nn_src(x2, src.width as int, dst_w as int),
                    nn_src(y as int, src.height as int, dst_h as int),
                    c,
                ),
        decreases dst_w - x,
    {
        let sx = nn_index(x, src.width, dst_w);
        row.push(read_pix(src, sx, sy, 0));
        row.push(read_pix(src, sx, sy, 1));
        row.push(read_pix(src, sx, sy, 2));
        row.push(read_pix(src, sx, sy, 3));
        x = x + 1;
    }
    row
}

/// Resample `src` to `dst_w` by `dst_h` pixels with the nearest-neighbor rule:
/// each destination pixel copies the source pixel under its center.
pub fn resample_nearest(src: &Image, dst_w: u32, dst_h: u32) -> (out: Image)
    requires
        src.wf(),
        src.width >= 1,
        src.height >= 1,
        dst_w * dst_h * 4 <= usize::MAX,
    ensures
        out.wf(),
        out.width == dst_w,
        out.height == dst_h,
        forall|x: int, y: int, c: int|
            0 <= x < dst_w && 0 <= y < dst_h && 0 <= c < 4 ==> #[trigger] out.pix(x, y, c)
                == src.pix(
                nn_src(x, src.width as int, dst_w as int),
                nn_src(y, src.height as int, dst_h as int),
                c,
            ),
{
    let mut data: Vec<u8> = Vec::new();
    let mut y: u32 = 0;
    while y < dst_h
        invariant
            src.wf(),
            src.width >= 1,
            src.height >= 1,
            0 <= y <= dst_h,
            data@.len() == y * (dst_w * 4),
            forall|x2: int, y2: int, c: int|
                0 <= x2 < dst_w && 0 <= y2 < y && 0 <= c < 4 ==> data@[pix_idx(
                    dst_w as int,
                    x2,
                    y2,
                    c,
                )] == src.pix(
                    nn_src(x2, src.width as int, dst_w as int),
                    nn_src(y2, src.height as int, dst_h as int),
                    c,
                ),
        decreases dst_h - y,
    {
        let mut row = resample_row(src, dst_w, dst_h, y);
        let ghost old_data = data@;
        let ghost row_snap = row@;
        data.append(&mut row);
        proof {
            assert((y + 1) * (dst_w * 4) == y * (dst_w * 4) + (dst_w * 4)) by (nonlinear_arith);
            assert forall|x2: int, y2: int, c: int|
                0 <= x2 < dst_w && 0 <= y2 < y + 1 && 0 <= c < 4 implies data@[pix_idx(
                dst_w as int,
                x2,
                y2,
                c,
            )] == src.pix(
                nn_src(x2, src.width as int, dst_w as int),
                nn_src(y2, src.height as int, dst_h as int),
                c,
            ) by {
                if y2 < y {
                    lemma_row_below(dst_w as int, x2, y2, y as int, c);
                    assert(data@[pix_idx(dst_w as int, x2, y2, c)] == old_data[pix_idx(
                        dst_w as int,
                        x2,
                        y2,
                        c,
                    )]);
                } else {
                    lemma_row_decompose(dst_w as int, x2, y as int, c);
                    assert(data@[pix_idx(dst_w as int, x2, y2, c)] == row_snap[row_idx(x2, c)]);
                    assert(row_snap[row_idx(x2, c)] == src.pix(
                        nn_src(x2, src.width as int, dst_w as int),
                        nn_src(y as int, src.height as int, dst_h as int),
                        c,
                    ));
                }
            };
        }
        y = y + 1;
    }
    let out = Image { width: dst_w, height: dst_h, data };
    proof {
        lemma_total_size(dst_w as int, dst_h as int);
    }
    out
}

/// Rounded size of a dimension rescaled from a native to a target scale:
/// `round(d * target / native)`, computed exactly on integers.
pub open spec fn scaled_dim(d: int, native: int, target: int) -> int {
    (2 * d * target + native) / (2 * native)
}

/// Compute `scaled_dim` exactly; the caller checks the result fits its type.
pub fn scaled_dim_exec(d: u32, native: u32, target: u32) -> (r: u128)
    requires
        native >= 1,
    ensures
        r == scaled_dim(d as int, native as int, target as int),
{
    proof {
        assert(2 * (d as int) * (target as int) + (native as int) <= u128::MAX) by (
        nonlinear_arith)
            requires
                d <= u32::MAX,
                target <= u32::MAX,
                native <= u32::MAX,
        ;
    }
    let num = 2 * (d as u128) * (target as u128) + (native as u128);
    let den = 2 * (native as u128);
    num / den
}

} // verus!
