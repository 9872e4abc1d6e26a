//! Conversion of a raw stride-padded frame in a 32-bit BGR(X) format into a
//! tightly packed RGBA image, row by row, with the alpha channel forced opaque.

use vstd::prelude::*;
use crate::error::PipelineError;
use crate::raster::{pix_idx, row_idx, Image, lemma_row_below, lemma_row_decompose,
    lemma_total_size};

verus! {

/// Raw format tag for 32-bit BGRA memory order (little-endian ARGB words).
pub const FORMAT_ARGB8888: u32 = 0;

/// Raw format tag for 32-bit BGRX memory order (little-endian XRGB words).
pub const FORMAT_XRGB8888: u32 = 1;

/// The converter accepts exactly the 4-byte-per-pixel BGR-ordered formats.
pub open spec fn format_supported(f: u32) -> bool {
    f == FORMAT_ARGB8888 || f == FORMAT_XRGB8888
}

/// One output's raw shared-memory capture result.
#[derive(Debug)]
pub struct CapturedFrame {
    /// Raw pixel-format tag as the compositor announced it.
    pub format: u32,
    pub width: u32,
    pub height: u32,
    /// Bytes per row, at least `4 * width`; padding beyond that is legal.
    pub stride: u32,
    pub data: Vec<u8>,
}

impl CapturedFrame {
    /// Rows hold at least four bytes per pixel and the buffer is exactly
    /// `height * stride` bytes.
    pub open spec fn wf(self) -> bool {
        self.stride >= 4 * self.width && self.data@.len() == self.height * self.stride
    }
}

/// Build a frame from raw parts, accepting exactly the well-formed ones.
pub fn frame_new(format: u32, width: u32, height: u32, stride: u32, data: Vec<u8>) -> (r: Option<
    CapturedFrame,
>)
    ensures
        r.is_some() == (stride >= 4 * width && data@.len() == height * stride),
        r matches Some(f) ==> f == (CapturedFrame { format, width, height, stride, data }) && f.wf(),
{
    proof {
        assert((height as int) * (stride as int) <= u64::MAX) by (nonlinear_arith)
            requires
                height <= u32::MAX,
                stride <= u32::MAX,
        ;
    }
    if (stride as u64) < 4 * (width as u64) {
        return None;
    }
    if (data.len() as u64) != (height as u64) * (stride as u64) {
        return None;
    }
    Some(CapturedFrame { format, width, height, stride, data })
}

/// One channel of the converted image: red, green and blue are read from the
/// BGR(X) source pixel, alpha is forced to 255 whatever the source holds.
pub open spec fn converted_byte(src: Seq<u8>, stride: int, x: int, y: int, c: int) -> u8 {
    if c == 3 {
        255u8
    } else {
        src[y * stride + 4 * x + (2 - c)]
    }
}

pub(crate) proof fn lemma_src_idx_bound(stride: int, w: int, h: int, x: int, y: int, j: int)
    by (nonlinear_arith)
    requires
        0 <= x < w,
        0 <= y < h,
        0 <= j < 4,
        4 * w <= stride,
    ensures
        0 <= y * stride,
        y * stride + 4 * x + j < h * stride,
{
}

pub(crate) proof fn lemma_tight_fits(w: int, h: int, stride: int, n: int)
    by (nonlinear_arith)
    requires
        4 * w <= stride,
        n == h * stride,
        h >= 0,
        w >= 0,
    ensures
        w * h * 4 <= n,
{
}

/// Convert one row of a raw frame to tightly packed RGBA.
///
/// Rows are independent, so callers may compute them in any order - even in
/// parallel - and concatenate the results by row index.
pub fn convert_row(frame: &CapturedFrame, y: u32) -> (row: Vec<u8>)
    requires
        frame.wf(),
        y < frame.height,
    ensures
        row@.len() == frame.width * 4,
        forall|x: int, c: int|
            0 <= x < frame.width && 0 <= c < 4 ==> row@[row_idx(x, c)] == converted_byte(
                frame.data@,
                frame.stride as int,
                x,
                y as int,
                c,
            ),
{
    let n = frame.data.len();
    let w = frame.width;
    proof {
        assert((y as int) * (frame.stride as int) <= u64::MAX) by (nonlinear_arith)
            requires
                y <= u32::MAX,
                frame.stride <= u32::MAX,
        ;
    }
    let row_start: u64 = (y as u64) * (frame.stride as u64);
    proof {
        if w > 0 {
            lemma_src_idx_bound(
                frame.stride as int,
                w as int,
                frame.height as int,
                0,
                y as int,
                0,
            );
        } else {
            assert((y as int) * (frame.stride as int) <= (frame.height as int) * (
            frame.stride as int)) by (nonlinear_arith)
                requires
                    0 <= y < frame.height || (y == 0 && frame.height == 0),
                    frame.stride >= 0,
            ;
        }
    }
    let mut row: Vec<u8> = Vec::new();
    let mut x: u32 = 0;
    while x < w
        invariant
            frame.wf(),
            y < frame.height,
            w == frame.width,
            n == frame.data@.len(),
            row_start == y * frame.stride,
            0 <= x <= w,
            row@.len() == 4 * x,
            forall|x2: int, c: int|
                0 <= x2 < x && 0 <= c < 4 ==> row@[row_idx(x2, c)] == converted_byte(
                    frame.data@,
                    frame.stride as int,
                    x2,
                    y as int,
                    c,
                ),
        decreases w - x,
    {
        proof {
            lemma_src_idx_bound(
                frame.stride as int,
                w as int,
                frame.height as int,
                x as int,
                y as int,
                3,
            );
            lemma_src_idx_bound(
                frame.stride as int,
                w as int,
                frame.height as int,
                x as int,
                y as int,
                0,
            );
        }
        let pixel_start: u64 = row_start + 4 * (x as u64);
        let b = frame.data[pixel_start as usize];
        let g = frame.data[(pixel_start + 1) as usize];
        let r = frame.data[(pixel_start + 2) as usize];
        row.push(r);
        row.push(g);
        row.push(b);
        row.push(255);
        x = x + 1;
    }
    row
}

/// Convert a whole frame to a tightly packed RGBA image.
///
/// Succeeds exactly on the supported BGR(X) formats; anything else is the
/// unsupported-format error, since silently mis-decoding pixels is worse
/// than failing.
pub fn convert_frame(frame: &CapturedFrame) -> (r: Result<Image, PipelineError>)
    requires
        frame.wf(),
    ensures
        r.is_ok() == format_supported(frame.format),
        r matches Ok(img) ==> img.wf() && img.width == frame.width && img.height == frame.height
            && forall|x: int, y: int, c: int|
            0 <= x < frame.width && 0 <= y < frame.height && 0 <= c < 4 ==> #[trigger] img.pix(
                x,
                y,
                c,
            ) == converted_byte(frame.data@, frame.stride as int, x, y, c),
        r matches Err(e) ==> e == PipelineError::UnsupportedFormat,
{
    if frame.format != FORMAT_ARGB8888 && frame.format != FORMAT_XRGB8888 {
        return Err(PipelineError::UnsupportedFormat);
    }
    let w = frame.width;
    let h = frame.height;
    proof {
        lemma_tight_fits(w as int, h as int, frame.stride as int, frame.data@.len() as int);
    }
    let mut data: Vec<u8> = Vec::new();
    let mut y: u32 = 0;
    while y < h
        invariant
            frame.wf(),
            w == frame.width,
            h == frame.height,
            0 <= y <= h,
            data@.len() == y * (w * 4),
            forall|x2: int, y2: int, c: int|
                0 <= x2 < w && 0 <= y2 < y && 0 <= c < 4 ==> data@[pix_idx(w as int, x2, y2, c)]
                    == converted_byte(frame.data@, frame.stride as int, x2, y2, c),
        decreases h - y,
    {
        let mut row = convert_row(frame, y);
        let ghost old_data = data@;
        let ghost row_snap = row@;
        data.append(&mut row);
        proof {
            assert((y + 1) * (w * 4) == y * (w * 4) + (w * 4)) by (nonlinear_arith);
            assert forall|x2: int, y2: int, c: int|
                0 <= x2 < w && 0 <= y2 < y + 1 && 0 <= c < 4 implies data@[pix_idx(
                w as int,
                x2,
                y2,
                c,
            )] == converted_byte(frame.data@, frame.stride as int, x2, y2, c) by {
                if y2 < y {
                    lemma_row_below(w as int, x2, y2, y as int, c);
                    assert(data@[pix_idx(w as int, x2, y2, c)] == old_data[pix_idx(
                        w as int,
                        x2,
                        y2,
                        c,
                    )]);
                } else {
                    lemma_row_decompose(w as int, x2, y as int, c);
                    assert(data@[pix_idx(w as int, x2, y2, c)] == row_snap[row_idx(x2, c)]);
                    assert(row_snap[row_idx(x2, c)] == converted_byte(
                        frame.data@,
                        frame.stride as int,
                        x2,
                        y as int,
                        c,
                    ));
                }
            };
        }
        y = y + 1;
    }
    let img = Image { width: w, height: h, data };
    proof {
        lemma_total_size(w as int, h as int);
    }
    Ok(img)
}

} // verus!
