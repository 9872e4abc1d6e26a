//! Assembly of the per-output images onto one canvas: union bounding box of
//! the target outputs in logical pixels, target scale, nearest-neighbor
//! rescaling of mismatched outputs, overlay in order (later outputs win), and
//! the optional clamped crop.

use vstd::prelude::*;
use vstd::arithmetic::div_mod::{lemma_basic_div, lemma_fundamental_div_mod,
    lemma_fundamental_div_mod_converse_div};
use vstd::arithmetic::mul::{lemma_mul_inequality, lemma_mul_nonnegative};
use crate::convert::{converted_byte, convert_frame, format_supported, CapturedFrame};
use crate::error::PipelineError;
use crate::geometry::{OutputInfo, Region};
use crate::raster::{blank_image, crop_image, lemma_nn_src_bound, nn_src, overlay_image,
    overlay_pix, resample_nearest, scaled_dim, scaled_dim_exec, Image};

verus! {

pub open spec fn min2(a: int, b: int) -> int {
    if a < b {
        a
    } else {
        b
    }
}

pub open spec fn max2(a: int, b: int) -> int {
    if a > b {
        a
    } else {
        b
    }
}

/// Smallest logical x over the targets (0 when there are none).
pub open spec fn min_x_of(ts: Seq<OutputInfo>) -> int
    decreases ts.len(),
{
    if ts.len() == 0 {
        0
    } else if ts.len() == 1 {
        ts[0].x as int
    } else {
        min2(min_x_of(ts.drop_last()), ts.last().x as int)
    }
}

/// Smallest logical y over the targets.
pub open spec fn min_y_of(ts: Seq<OutputInfo>) -> int
    decreases ts.len(),
{
    if ts.len() == 0 {
        0
    } else if ts.len() == 1 {
        ts[0].y as int
    } else {
        min2(min_y_of(ts.drop_last()), ts.last().y as int)
    }
}

/// Largest logical right edge (x + width) over the targets.
pub open spec fn max_x_of(ts: Seq<OutputInfo>) -> int
    decreases ts.len(),
{
    if ts.len() == 0 {
        0
    } else if ts.len() == 1 {
        ts[0].x + ts[0].width
    } else {
        max2(max_x_of(ts.drop_last()), ts.last().x + ts.last().width)
    }
}

/// Largest logical bottom edge (y + height) over the targets.
pub open spec fn max_y_of(ts: Seq<OutputInfo>) -> int
    decreases ts.len(),
{
    if ts.len() == 0 {
        0
    } else if ts.len() == 1 {
        ts[0].y + ts[0].height
    } else {
        max2(max_y_of(ts.drop_last()), ts.last().y + ts.last().height)
    }
}

/// The composite scale: the largest scale over the targets (1 when none).
pub open spec fn max_scale_of(ts: Seq<OutputInfo>) -> int
    decreases ts.len(),
{
    if ts.len() == 0 {
        1
    } else if ts.len() == 1 {
        ts[0].scale as int
    } else {
        max2(max_scale_of(ts.drop_last()), ts.last().scale as int)
    }
}

/// Canvas width: the logical bounding-box width times the composite scale.
pub open spec fn spec_canvas_width(ts: Seq<OutputInfo>) -> int {
    (max_x_of(ts) - min_x_of(ts)) * max_scale_of(ts)
}

/// Canvas height: the logical bounding-box height times the composite scale.
pub open spec fn spec_canvas_height(ts: Seq<OutputInfo>) -> int {
    (max_y_of(ts) - min_y_of(ts)) * max_scale_of(ts)
}

/// The canvas must be addressable: both dimensions fit `u32` and the RGBA
/// buffer fits a `usize`.
pub open spec fn layout_ok(ts: Seq<OutputInfo>) -> bool {
    spec_canvas_width(ts) <= u32::MAX && spec_canvas_height(ts) <= u32::MAX && spec_canvas_width(
        ts,
    ) * spec_canvas_height(ts) * 4 <= usize::MAX
}

pub(crate) proof fn lemma_bounds_cover(ts: Seq<OutputInfo>, j: int)
    requires
        0 <= j < ts.len(),
    ensures
        min_x_of(ts) <= ts[j].x,
        min_y_of(ts) <= ts[j].y,
        max_x_of(ts) >= ts[j].x + ts[j].width,
        max_y_of(ts) >= ts[j].y + ts[j].height,
        max_scale_of(ts) >= ts[j].scale,
    decreases ts.len(),
{
    if ts.len() > 1 && j < ts.len() - 1 {
        lemma_bounds_cover(ts.drop_last(), j);
    }
}

/// The canvas dimensions are never negative for well-formed, nonempty targets.
pub(crate) proof fn lemma_canvas_nonneg(ts: Seq<OutputInfo>)
    requires
        ts.len() >= 1,
        forall|i: int| 0 <= i < ts.len() ==> (#[trigger] ts[i]).wf(),
    ensures
        max_scale_of(ts) >= 1,
        max_x_of(ts) >= min_x_of(ts),
        max_y_of(ts) >= min_y_of(ts),
        spec_canvas_width(ts) >= 0,
        spec_canvas_height(ts) >= 0,
    decreases ts.len(),
{
    if ts.len() == 1 {
        assert(ts[0].wf());
    } else {
        let prefix = ts.drop_last();
        assert(forall|i: int| 0 <= i < prefix.len() ==> prefix[i] == ts[i]);
        lemma_canvas_nonneg(prefix);
        assert(ts.last().wf());
    }
    lemma_mul_nonnegative(max_x_of(ts) - min_x_of(ts), max_scale_of(ts));
    lemma_mul_nonnegative(max_y_of(ts) - min_y_of(ts), max_scale_of(ts));
}

/// The resolved canvas placement: bounding-box origin, composite scale, and
/// canvas size in physical pixels.
#[derive(Clone, Copy, Debug, PartialEq)]
pub struct CanvasLayout {
    pub min_x: i32,
    pub min_y: i32,
    pub scale: i32,
    pub width: u32,
    pub height: u32,
}

/// One pass over the targets: bounding box and largest scale.
fn bounds_scan(targets: &Vec<OutputInfo>) -> (r: (i32, i32, i64, i64, i32))
    requires
        targets@.len() >= 1,
    ensures
        r.0 == min_x_of(targets@),
        r.1 == min_y_of(targets@),
        r.2 == max_x_of(targets@),
        r.3 == max_y_of(targets@),
        r.4 == max_scale_of(targets@),
{
    let mut min_x: i32 = targets[0].x;
    let mut min_y: i32 = targets[0].y;
    let mut max_x: i64 = targets[0].x as i64 + targets[0].width as i64;
    let mut max_y: i64 = targets[0].y as i64 + targets[0].height as i64;
    let mut scale: i32 = targets[0].scale;
    let mut i: usize = 1;
    proof {
        assert(targets@.take(1) =~= seq![targets@[0]]);
    }
    while i < targets.len()
        invariant
            1 <= i <= targets@.len(),
            targets@.len() >= 1,
            min_x == min_x_of(targets@.take(i as int)),
            min_y == min_y_of(targets@.take(i as int)),
            max_x == max_x_of(targets@.take(i as int)),
            max_y == max_y_of(targets@.take(i as int)),
            scale == max_scale_of(targets@.take(i as int)),
        decreases targets@.len() - i,
    {
        proof {
            assert(targets@.take(i + 1).drop_last() =~= targets@.take(i as int));
            assert(targets@.take(i + 1).last() == targets@[i as int]);
        }
        let t = targets[i];
        if t.x < min_x {
            min_x = t.x;
        }
        if t.y < min_y {
            min_y = t.y;
        }
        let right = t.x as i64 + t.width as i64;
        if right > max_x {
            max_x = right;
        }
        let bottom = t.y as i64 + t.height as i64;
        if bottom > max_y {
            max_y = bottom;
        }
        if t.scale > scale {
            scale = t.scale;
        }
        i = i + 1;
    }
    proof {
        assert(targets@.take(targets@.len() as int) =~= targets@);
    }
    (min_x, min_y, max_x, max_y, scale)
}

/// Compute the canvas placement for a nonempty set of targets.
pub fn canvas_layout(targets: &Vec<OutputInfo>) -> (l: CanvasLayout)
    requires
        targets@.len() >= 1,
        forall|i: int| 0 <= i < targets@.len() ==> (#[trigger] targets@[i]).wf(),
        layout_ok(targets@),
    ensures
        l.min_x == min_x_of(targets@),
        l.min_y == min_y_of(targets@),
        l.scale == max_scale_of(targets@),
        l.scale >= 1,
        l.width == spec_canvas_width(targets@),
        l.height == spec_canvas_height(targets@),
{
    let (min_x, min_y, max_x, max_y, scale) = bounds_scan(targets);
    proof {
        lemma_canvas_nonneg(targets@);
    }
    let width128 = (max_x as i128 - min_x as i128) * (scale as i128);
    let height128 = (max_y as i128 - min_y as i128) * (scale as i128);
    CanvasLayout {
        min_x,
        min_y,
        scale,
        width: width128 as u32,
        height: height128 as u32,
    }
}

/// The captured frames that actually arrived, paired with their outputs, in
/// capture order.
pub open spec fn present_frames(ts: Seq<OutputInfo>, fs: Seq<Option<CapturedFrame>>) -> Seq<
    (OutputInfo, CapturedFrame),
>
    decreases ts.len(),
{
    if ts.len() == 0 || fs.len() == 0 {
        Seq::empty()
    } else {
        let rest = present_frames(ts.drop_last(), fs.drop_last());
        match fs.last() {
            Some(f) => rest.push((ts.last(), f)),
            None => rest,
        }
    }
}

/// Every present frame carries a format the converter accepts.
pub open spec fn all_supported(items: Seq<(OutputInfo, CapturedFrame)>) -> bool {
    forall|i: int| 0 <= i < items.len() ==> format_supported((#[trigger] items[i]).1.format)
}

/// Width a frame's converted image occupies on the canvas: its own width at
/// the composite scale, the rounded rescaled width otherwise.
pub open spec fn frame_placed_w(f: CapturedFrame, info: OutputInfo, scale: int) -> int {
    if info.scale == scale {
        f.width as int
    } else {
        scaled_dim(f.width as int, info.scale as int, scale)
    }
}

pub open spec fn frame_placed_h(f: CapturedFrame, info: OutputInfo, scale: int) -> int {
    if info.scale == scale {
        f.height as int
    } else {
        scaled_dim(f.height as int, info.scale as int, scale)
    }
}

/// Channel `c` of the placed (converted and possibly rescaled) image at local
/// position `(lx, ly)` within its placed rectangle.
pub open spec fn frame_placed_pix(
    f: CapturedFrame,
    info: OutputInfo,
    scale: int,
    lx: int,
    ly: int,
    c: int,
) -> u8 {
    if info.scale == scale {
        converted_byte(f.data@, f.stride as int, lx, ly, c)
    } else {
        converted_byte(
            f.data@,
            f.stride as int,
            nn_src(lx, f.width as int, frame_placed_w(f, info, scale)),
            nn_src(ly, f.height as int, frame_placed_h(f, info, scale)),
            c,
        )
    }
}

/// Does this frame's placed rectangle cover canvas pixel `(x, y)`?
pub open spec fn frame_covers(
    f: CapturedFrame,
    info: OutputInfo,
    minx: int,
    miny: int,
    scale: int,
    x: int,
    y: int,
) -> bool {
    let dx = (info.x - minx) * scale;
    let dy = (info.y - miny) * scale;
    dx <= x < dx + frame_placed_w(f, info, scale) && dy <= y < dy + frame_placed_h(f, info, scale)
}

/// Channel `c` of canvas pixel `(x, y)` after overlaying the items in order:
/// the last item that covers the pixel wins; uncovered pixels stay 0.
pub open spec fn composite_pix(
    items: Seq<(OutputInfo, CapturedFrame)>,
    minx: int,
    miny: int,
    scale: int,
    x: int,
    y: int,
    c: int,
) -> u8
    decreases items.len(),
{
    if items.len() == 0 {
        0u8
    } else {
        let (info, f) = items.last();
        if frame_covers(f, info, minx, miny, scale, x, y) {
            frame_placed_pix(
                f,
                info,
                scale,
                x - (info.x - minx) * scale,
                y - (info.y - miny) * scale,
                c,
            )
        } else {
            composite_pix(items.drop_last(), minx, miny, scale, x, y, c)
        }
    }
}

/// Every rescaled frame's placed rectangle is addressable.
pub open spec fn scaled_frames_ok(items: Seq<(OutputInfo, CapturedFrame)>, scale: int) -> bool {
    forall|i: int|
        0 <= i < items.len() ==> ((#[trigger] items[i]).0.scale != scale ==> {
            let pw = frame_placed_w(items[i].1, items[i].0, scale);
            let ph = frame_placed_h(items[i].1, items[i].0, scale);
            pw <= u32::MAX && ph <= u32::MAX && pw * ph * 4 <= usize::MAX
        })
}

/// A converted image: right size, and every pixel as `converted_byte` says.
pub open spec fn image_matches_frame(img: Image, f: CapturedFrame) -> bool {
    img.wf() && img.width == f.width && img.height == f.height && forall|x: int, y: int, c: int|
        0 <= x < f.width && 0 <= y < f.height && 0 <= c < 4 ==> #[trigger] img.pix(x, y, c)
            == converted_byte(f.data@, f.stride as int, x, y, c)
}

/// A present pair's output record is one of the targets.
pub(crate) proof fn lemma_present_member(
    ts: Seq<OutputInfo>,
    fs: Seq<Option<CapturedFrame>>,
    k: int,
)
    requires
        ts.len() == fs.len(),
        0 <= k < present_frames(ts, fs).len(),
    ensures
        exists|j: int|
            0 <= j < ts.len() && present_frames(ts, fs)[k] == (ts[j], fs[j]->Some_0) && fs[j]
                is Some,
    decreases ts.len(),
{
    if ts.len() > 0 {
        let rest = present_frames(ts.drop_last(), fs.drop_last());
        if fs.last() is Some && k == rest.len() {
            assert(present_frames(ts, fs)[k] == (ts[ts.len() - 1], fs[ts.len() - 1]->Some_0));
        } else {
            lemma_present_member(ts.drop_last(), fs.drop_last(), k);
            let j = choose|j: int|
                0 <= j < ts.drop_last().len() && present_frames(ts.drop_last(), fs.drop_last())[k]
                    == (ts.drop_last()[j], fs.drop_last()[j]->Some_0) && fs.drop_last()[j] is Some;
            assert(present_frames(ts, fs)[k] == (ts[j], fs[j]->Some_0));
        }
    }
}

/// A present input frame shows up among the present pairs.
pub(crate) proof fn lemma_present_contains(
    ts: Seq<OutputInfo>,
    fs: Seq<Option<CapturedFrame>>,
    i: int,
)
    requires
        ts.len() == fs.len(),
        0 <= i < ts.len(),
        fs[i] is Some,
    ensures
        exists|k: int|
            0 <= k < present_frames(ts, fs).len() && #[trigger] present_frames(ts, fs)[k] == (
            ts[i], fs[i]->Some_0),
    decreases ts.len(),
{
    let rest = present_frames(ts.drop_last(), fs.drop_last());
    if i == ts.len() - 1 {
        assert(present_frames(ts, fs)[rest.len() as int] == (ts[i], fs[i]->Some_0));
    } else {
        lemma_present_contains(ts.drop_last(), fs.drop_last(), i);
        let k = choose|k: int|
            0 <= k < rest.len() && #[trigger] rest[k] == (ts.drop_last()[i], fs.drop_last()[i]->Some_0);
        assert(present_frames(ts, fs)[k] == (ts[i], fs[i]->Some_0));
    }
}

/// Doubling law: a frame at native scale 1 placed into a composite at scale 2
/// is rescaled to exactly double its dimensions, and every destination
/// coordinate in a 2-wide block reads the one source coordinate under it, so
/// each 2x2 destination block copies a single source pixel.
pub proof fn lemma_double_scale_blocks(w: int, d: int)
    requires
        1 <= w,
        0 <= d < 2 * w,
    ensures
        scaled_dim(w, 1, 2) == 2 * w,
        nn_src(d, w, 2 * w) == d / 2,
{
    assert(scaled_dim(w, 1, 2) == (4 * w + 1) / 2);
    lemma_fundamental_div_mod_converse_div(4 * w + 1, 2, 2 * w, 1);
    let q = d / 2;
    let r = d % 2;
    assert(d == 2 * q + r && 0 <= r < 2) by {
        lemma_fundamental_div_mod(d, 2);
    }
    assert((2 * d + 1) * w == q * (4 * w) + (2 * r + 1) * w) by (nonlinear_arith)
        requires
            d == 2 * q + r,
    ;
    assert(0 <= (2 * r + 1) * w < 4 * w) by (nonlinear_arith)
        requires
            0 <= r < 2,
            w >= 1,
    ;
    lemma_fundamental_div_mod_converse_div((2 * d + 1) * w, 4 * w, q, (2 * r + 1) * w);
}

/// Seam law: two outputs of equal scale placed adjacent horizontally, whose
/// captured frames are their logical size times that scale, compose onto a
/// canvas exactly as wide as both together; each converted image appears
/// verbatim at its own offset and the seam pixels come from exactly one of
/// the two.
pub proof fn lemma_adjacent_outputs_compose(
    a: OutputInfo,
    b: OutputInfo,
    fa: CapturedFrame,
    fb: CapturedFrame,
    x: int,
    y: int,
    c: int,
)
    requires
        a.wf(),
        b.wf(),
        b.scale == a.scale,
        b.x == a.x + a.width,
        b.y == a.y,
        b.height == a.height,
        fa.width == a.width * a.scale,
        fa.height == a.height * a.scale,
        fb.width == b.width * b.scale,
        fb.height == b.height * b.scale,
        0 <= c < 4,
    ensures
        spec_canvas_width(seq![a, b]) == (a.width + b.width) * a.scale,
        0 <= x < fa.width && 0 <= y < fa.height ==> composite_pix(
            seq![(a, fa), (b, fb)],
            min_x_of(seq![a, b]),
            min_y_of(seq![a, b]),
            max_scale_of(seq![a, b]),
            x,
            y,
            c,
        ) == converted_byte(fa.data@, fa.stride as int, x, y, c),
        fa.width <= x < fa.width as int + fb.width && 0 <= y < fb.height ==> composite_pix(
            seq![(a, fa), (b, fb)],
            min_x_of(seq![a, b]),
            min_y_of(seq![a, b]),
            max_scale_of(seq![a, b]),
            x,
            y,
            c,
        ) == converted_byte(fb.data@, fb.stride as int, x - fa.width, y, c),
{
    let ts = seq![a, b];
    let pairs = seq![(a, fa), (b, fb)];
    assert(ts.drop_last() =~= seq![a]);
    assert(pairs.drop_last() =~= seq![(a, fa)]);
    assert(seq![(a, fa)].drop_last() =~= Seq::<(OutputInfo, CapturedFrame)>::empty());
    assert(min_x_of(seq![a]) == a.x);
    assert(min_y_of(seq![a]) == a.y);
    assert(max_x_of(seq![a]) == a.x + a.width);
    assert(max_y_of(seq![a]) == a.y + a.height);
    assert(max_scale_of(seq![a]) == a.scale);
    assert(min_x_of(ts) == a.x);
    assert(min_y_of(ts) == a.y);
    assert(max_x_of(ts) == b.x + b.width);
    assert(max_scale_of(ts) == a.scale);
    assert((b.x + b.width - a.x) * a.scale == (a.width + b.width) * a.scale);
    let minx = min_x_of(ts);
    let miny = min_y_of(ts);
    let scale = max_scale_of(ts);
    assert((b.x - minx) * scale == a.width * a.scale) by (nonlinear_arith)
        requires
            b.x == a.x + a.width,
            minx == a.x,
            scale == a.scale,
    ;
    assert((a.x - minx) * scale == 0);
    assert((a.y - miny) * scale == 0);
    assert((b.y - miny) * scale == 0);
    if 0 <= x < fa.width && 0 <= y < fa.height {
        assert(!frame_covers(fb, b, minx, miny, scale, x, y));
        assert(frame_covers(fa, a, minx, miny, scale, x, y));
        assert(composite_pix(pairs, minx, miny, scale, x, y, c) == composite_pix(
            seq![(a, fa)],
            minx,
            miny,
            scale,
            x,
            y,
            c,
        ));
        assert(composite_pix(seq![(a, fa)], minx, miny, scale, x, y, c) == frame_placed_pix(
            fa,
            a,
            scale,
            x,
            y,
            c,
        ));
    }
    if fa.width <= x < fa.width as int + fb.width && 0 <= y < fb.height {
        assert(frame_covers(fb, b, minx, miny, scale, x, y));
        assert(composite_pix(pairs, minx, miny, scale, x, y, c) == frame_placed_pix(
            fb,
            b,
            scale,
            x - fa.width as int,
            y,
            c,
        ));
    }
}

/// The requested crop's left edge in canvas space.
pub open spec fn spec_crop_x(g: Region, ts: Seq<OutputInfo>) -> int {
    (g.x - min_x_of(ts)) * max_scale_of(ts)
}

/// The requested crop's top edge in canvas space.
pub open spec fn spec_crop_y(g: Region, ts: Seq<OutputInfo>) -> int {
    (g.y - min_y_of(ts)) * max_scale_of(ts)
}

/// The crop width after clamping: the requested width at canvas scale, cut
/// down so the crop never reads past the right canvas edge; zero when the
/// left edge misses the canvas entirely.
pub open spec fn spec_crop_w(g: Region, ts: Seq<OutputInfo>) -> int {
    let ox = spec_crop_x(g, ts);
    if 0 <= ox < spec_canvas_width(ts) {
        min2(g.width * max_scale_of(ts), spec_canvas_width(ts) - ox)
    } else {
        0
    }
}

/// The crop height after clamping, analogously.
pub open spec fn spec_crop_h(g: Region, ts: Seq<OutputInfo>) -> int {
    let oy = spec_crop_y(g, ts);
    if 0 <= oy < spec_canvas_height(ts) {
        min2(g.height * max_scale_of(ts), spec_canvas_height(ts) - oy)
    } else {
        0
    }
}

/// Convert the frames that arrived and assemble the final image.
///
/// A lone frame with no crop is returned converted but otherwise untouched.
/// Otherwise a canvas sized to the targets' logical bounding box at the
/// composite scale is filled by overlaying each output's image at its offset
/// (rescaled when its native scale differs; later outputs win on overlap) and
/// the requested crop, clamped to the canvas, is cut out.
pub fn compose_frames(
    targets: &Vec<OutputInfo>,
    frames: &Vec<Option<CapturedFrame>>,
    crop: Option<Region>,
) -> (r: Result<Option<Image>, PipelineError>)
    requires
        targets@.len() == frames@.len(),
        forall|i: int| 0 <= i < targets@.len() ==> (#[trigger] targets@[i]).wf(),
        forall|i: int|
            0 <= i < frames@.len() ==> ((#[trigger] frames@[i]) matches Some(f) ==> f.wf()),
        ({
            let pairs = present_frames(targets@, frames@);
            (pairs.len() > 1 || (pairs.len() == 1 && crop is Some)) ==> (layout_ok(targets@)
                && scaled_frames_ok(pairs, max_scale_of(targets@)))
        }),
    ensures
        ({
            let pairs = present_frames(targets@, frames@);
            let minx = min_x_of(targets@);
            let miny = min_y_of(targets@);
            let scale = max_scale_of(targets@);
            &&& (!all_supported(pairs) ==> r == Result::<Option<Image>, PipelineError>::Err(
                PipelineError::UnsupportedFormat,
            ))
            &&& (all_supported(pairs) ==> (if pairs.len() == 0 {
                r == Result::<Option<Image>, PipelineError>::Ok(None)
            } else if pairs.len() == 1 && crop is None {
                &&& r matches Ok(Some(img))
                &&& r matches Ok(Some(img)) ==> image_matches_frame(img, pairs[0].1)
            } else {
                match crop {
                    None => {
                        &&& r matches Ok(Some(img))
                        &&& r matches Ok(Some(img)) ==> img.wf() && img.width
                            == spec_canvas_width(targets@) && img.height == spec_canvas_height(
                            targets@,
                        ) && (forall|x: int, y: int, c: int|
                            0 <= x < img.width && 0 <= y < img.height && 0 <= c < 4
                                ==> #[trigger] img.pix(x, y, c) == composite_pix(
                                pairs,
                                minx,
                                miny,
                                scale,
                                x,
                                y,
                                c,
                            ))
                    },
                    Some(g) => {
                        if spec_crop_w(g, targets@) > 0 && spec_crop_h(g, targets@) > 0 {
                            &&& r matches Ok(Some(img))
                            &&& r matches Ok(Some(img)) ==> img.wf() && img.width == spec_crop_w(
                                g,
                                targets@,
                            ) && img.height == spec_crop_h(g, targets@) && (forall|
                                x: int,
                                y: int,
                                c: int,
                            |
                                0 <= x < img.width && 0 <= y < img.height && 0 <= c < 4
                                    ==> #[trigger] img.pix(x, y, c) == composite_pix(
                                    pairs,
                                    minx,
                                    miny,
                                    scale,
                                    spec_crop_x(g, targets@) + x,
                                    spec_crop_y(g, targets@) + y,
                                    c,
                                ))
                        } else {
                            r == Result::<Option<Image>, PipelineError>::Err(
                                PipelineError::EmptyCrop,
                            )
                        }
                    },
                }
            }))
        }),
{
    let ghost gpairs = present_frames(targets@, frames@);
    let n = targets.len();
    let mut items: Vec<(OutputInfo, Image)> = Vec::new();
    let mut i: usize = 0;
    while i < n
        invariant
            n == targets@.len(),
            targets@.len() == frames@.len(),
            gpairs == present_frames(targets@, frames@),
            forall|j: int| 0 <= j < targets@.len() ==> (#[trigger] targets@[j]).wf(),
            forall|j: int|
                0 <= j < frames@.len() ==> ((#[trigger] frames@[j]) matches Some(f) ==> f.wf()),
            0 <= i <= n,
            items@.len() == present_frames(
                targets@.take(i as int),
                frames@.take(i as int),
            ).len(),
            forall|k: int|
                0 <= k < items@.len() ==> ((#[trigger] items@[k]).0 == present_frames(
                    targets@.take(i as int),
                    frames@.take(i as int),
                )[k].0 && image_matches_frame(
                    items@[k].1,
                    present_frames(targets@.take(i as int), frames@.take(i as int))[k].1,
                )),
            all_supported(present_frames(targets@.take(i as int), frames@.take(i as int))),
        decreases n - i,
    {
        proof {
            assert(targets@.take(i + 1).drop_last() =~= targets@.take(i as int));
            assert(frames@.take(i + 1).drop_last() =~= frames@.take(i as int));
            assert(targets@.take(i + 1).last() == targets@[i as int]);
            assert(frames@.take(i + 1).last() == frames@[i as int]);
        }
        let fo: &Option<CapturedFrame> = &frames[i];
        match fo {
            Some(f) => {
                match convert_frame(f) {
                    Ok(img) => {
                        items.push((targets[i], img));
                    },
                    Err(_) => {
                        proof {
                            lemma_present_contains(targets@, frames@, i as int);
                            let k = choose|k: int|
                                0 <= k < gpairs.len() && #[trigger] gpairs[k] == (
                                targets@[i as int],
                                frames@[i as int]->Some_0,
                                );
                            assert(!format_supported(gpairs[k].1.format));
                            assert(!all_supported(gpairs));
                        }
                        return Err(PipelineError::UnsupportedFormat);
                    },
                }
            },
            None => {
            },
        }
        i = i + 1;
    }
    proof {
        assert(targets@.take(n as int) =~= targets@);
        assert(frames@.take(n as int) =~= frames@);
    }
    if items.len() == 0 {
        return Ok(None);
    }
    if items.len() == 1 && crop.is_none() {
        match items.pop() {
            Some(pair) => {
                return Ok(Some(pair.1));
            },
            None => {
                proof {
                    assert(false);
                }
                return Ok(None);
            },
        }
    }
    let layout = canvas_layout(targets);
    let ghost minx = min_x_of(targets@);
    let ghost miny = min_y_of(targets@);
    let ghost scale = max_scale_of(targets@);
    let cw = layout.width;
    let ch = layout.height;
    let mut canvas = blank_image(cw, ch);
    proof {
        assert(gpairs.take(0) =~= Seq::<(OutputInfo, CapturedFrame)>::empty());
    }
    let m = items.len();
    let mut k: usize = 0;
    while k < m
        invariant
            n == targets@.len(),
            targets@.len() == frames@.len(),
            gpairs == present_frames(targets@, frames@),
            forall|j: int| 0 <= j < targets@.len() ==> (#[trigger] targets@[j]).wf(),
            forall|j: int|
                0 <= j < frames@.len() ==> ((#[trigger] frames@[j]) matches Some(f) ==> f.wf()),
            m == items@.len(),
            items@.len() == gpairs.len(),
            forall|k2: int|
                0 <= k2 < items@.len() ==> ((#[trigger] items@[k2]).0 == gpairs[k2].0
                    && image_matches_frame(items@[k2].1, gpairs[k2].1)),
            scaled_frames_ok(gpairs, scale),
            layout_ok(targets@),
            minx == min_x_of(targets@),
            miny == min_y_of(targets@),
            scale == max_scale_of(targets@),
            layout.min_x == minx,
            layout.min_y == miny,
            layout.scale == scale,
            layout.scale >= 1,
            cw == spec_canvas_width(targets@),
            ch == spec_canvas_height(targets@),
            canvas.wf(),
            canvas.width == cw,
            canvas.height == ch,
            0 <= k <= m,
            forall|x: int, y: int, c: int|
                0 <= x < cw && 0 <= y < ch && 0 <= c < 4 ==> #[trigger] canvas.pix(x, y, c)
                    == composite_pix(gpairs.take(k as int), minx, miny, scale, x, y, c),
        decreases m - k,
    {
        let info = items[k].0;
        let img: &Image = &items[k].1;
        let ghost f = gpairs[k as int].1;
        proof {
            lemma_present_member(targets@, frames@, k as int);
            let j = choose|j: int|
                0 <= j < targets@.len() && gpairs[k as int] == (
                targets@[j],
                frames@[j]->Some_0,
                ) && frames@[j] is Some;
            lemma_bounds_cover(targets@, j);
            assert(targets@[j].wf());
            assert(f.wf());
            assert(info == gpairs[k as int].0);
            assert(image_matches_frame(items@[k as int].1, f));
            lemma_mul_nonnegative(info.x - minx, scale);
            lemma_mul_nonnegative(info.y - miny, scale);
            lemma_mul_inequality(info.x - minx, max_x_of(targets@) - minx, scale);
            lemma_mul_inequality(info.y - miny, max_y_of(targets@) - miny, scale);
        }
        let dxi: i128 = (info.x as i128 - layout.min_x as i128) * (layout.scale as i128);
        let dyi: i128 = (info.y as i128 - layout.min_y as i128) * (layout.scale as i128);
        let dx = dxi as u32;
        let dy = dyi as u32;
        proof {
            assert(gpairs.take(k + 1).drop_last() =~= gpairs.take(k as int));
            assert(gpairs.take(k + 1).last() == gpairs[k as int]);
        }
        if img.width > 0 && img.height > 0 {
            if info.scale != layout.scale {
                let pw128 = scaled_dim_exec(img.width, info.scale as u32, layout.scale as u32);
                let ph128 = scaled_dim_exec(img.height, info.scale as u32, layout.scale as u32);
                proof {
                    assert(pw128 == frame_placed_w(f, info, scale));
                    assert(ph128 == frame_placed_h(f, info, scale));
                }
                let pw = pw128 as u32;
                let ph = ph128 as u32;
                let scaled = resample_nearest(img, pw, ph);
                let canvas2 = overlay_image(&canvas, &scaled, dx, dy);
                proof {
                    assert forall|x: int, y: int, c: int|
                        0 <= x < cw && 0 <= y < ch && 0 <= c < 4 implies #[trigger] canvas2.pix(
                        x,
                        y,
                        c,
                    ) == composite_pix(gpairs.take(k + 1), minx, miny, scale, x, y, c) by {
                        assert(canvas2.pix(x, y, c) == overlay_pix(
                            canvas,
                            scaled,
                            dx as int,
                            dy as int,
                            x,
                            y,
                            c,
                        ));
                        if frame_covers(f, info, minx, miny, scale, x, y) {
                            let lx = x - dxi;
                            let ly = y - dyi;
                            assert(scaled.pix(lx, ly, c) == img.pix(
                                nn_src(lx, img.width as int, pw as int),
                                nn_src(ly, img.height as int, ph as int),
                                c,
                            ));
                            lemma_nn_src_bound(lx, img.width as int, pw as int);
                            lemma_nn_src_bound(ly, img.height as int, ph as int);
                            assert(img.pix(
                                nn_src(lx, img.width as int, pw as int),
                                nn_src(ly, img.height as int, ph as int),
                                c,
                            ) == converted_byte(
                                f.data@,
                                f.stride as int,
                                nn_src(lx, f.width as int, frame_placed_w(f, info, scale)),
                                nn_src(ly, f.height as int, frame_placed_h(f, info, scale)),
                                c,
                            ));
                        }
                    };
                }
                canvas = canvas2;
            } else {
                let canvas2 = overlay_image(&canvas, img, dx, dy);
                proof {
                    assert forall|x: int, y: int, c: int|
                        0 <= x < cw && 0 <= y < ch && 0 <= c < 4 implies #[trigger] canvas2.pix(
                        x,
                        y,
                        c,
                    ) == composite_pix(gpairs.take(k + 1), minx, miny, scale, x, y, c) by {
                        assert(canvas2.pix(x, y, c) == overlay_pix(
                            canvas,
                            *img,
                            dx as int,
                            dy as int,
                            x,
                            y,
                            c,
                        ));
                        if frame_covers(f, info, minx, miny, scale, x, y) {
                            let lx = x - dxi;
                            let ly = y - dyi;
                            assert(img.pix(lx, ly, c) == converted_byte(
                                f.data@,
                                f.stride as int,
                                lx,
                                ly,
                                c,
                            ));
                        }
                    };
                }
                canvas = canvas2;
            }
        } else {
            proof {
                if info.scale != scale {
                    lemma_basic_div(info.scale as int, 2 * (info.scale as int));
                    if f.width == 0 {
                        assert(2 * (f.width as int) * scale + (info.scale as int) == info.scale)
                            by (nonlinear_arith)
                            requires
                                f.width == 0,
                        ;
                        assert(frame_placed_w(f, info, scale) == 0);
                    } else {
                        assert(f.height == 0);
                        assert(2 * (f.height as int) * scale + (info.scale as int) == info.scale)
                            by (nonlinear_arith)
                            requires
                                f.height == 0,
                        ;
                        assert(frame_placed_h(f, info, scale) == 0);
                    }
                }
                assert forall|x: int, y: int, c: int|
                    0 <= x < cw && 0 <= y < ch && 0 <= c < 4 implies #[trigger] canvas.pix(x, y, c)
                    == composite_pix(gpairs.take(k + 1), minx, miny, scale, x, y, c) by {
                    assert(!frame_covers(f, info, minx, miny, scale, x, y));
                };
            }
        }
        k = k + 1;
    }
    proof {
        assert(gpairs.take(m as int) =~= gpairs);
    }
    match crop {
        None => Ok(Some(canvas)),
        Some(g) => {
            proof {
                lemma_canvas_nonneg(targets@);
                lemma_mul_nonnegative(g.width as int, scale);
                lemma_mul_nonnegative(g.height as int, scale);
                assert({
                    &&& -0x1_0000_0000_0000_0000 <= (g.x as int - layout.min_x as int) * (
                    layout.scale as int) <= 0x1_0000_0000_0000_0000
                    &&& -0x1_0000_0000_0000_0000 <= (g.y as int - layout.min_y as int) * (
                    layout.scale as int) <= 0x1_0000_0000_0000_0000
                }) by (nonlinear_arith)
                    requires
                        -0x8000_0000 <= g.x <= 0x7FFF_FFFF,
                        -0x8000_0000 <= g.y <= 0x7FFF_FFFF,
                        -0x8000_0000 <= layout.min_x <= 0x7FFF_FFFF,
                        -0x8000_0000 <= layout.min_y <= 0x7FFF_FFFF,
                        1 <= layout.scale <= 0x7FFF_FFFF,
                ;
            }
            let oxi: i128 = (g.x as i128 - layout.min_x as i128) * (layout.scale as i128);
            let oyi: i128 = (g.y as i128 - layout.min_y as i128) * (layout.scale as i128);
            if oxi >= 0 && oxi < cw as i128 && oyi >= 0 && oyi < ch as i128 {
                proof {
                    assert({
                        &&& (g.width as int) * (layout.scale as int) <= 0x1_0000_0000_0000_0000
                        &&& (g.height as int) * (layout.scale as int) <= 0x1_0000_0000_0000_0000
                    }) by (nonlinear_arith)
                        requires
                            g.width <= 0xFFFF_FFFF,
                            g.height <= 0xFFFF_FFFF,
                            0 <= layout.scale <= 0x7FFF_FFFF,
                    ;
                }
                let gw128 = (g.width as u128) * (layout.scale as u128);
                let gh128 = (g.height as u128) * (layout.scale as u128);
                let avail_w = (cw as i128 - oxi) as u128;
                let avail_h = (ch as i128 - oyi) as u128;
                let w2 = if gw128 < avail_w {
                    gw128
                } else {
                    avail_w
                };
                let h2 = if gh128 < avail_h {
                    gh128
                } else {
                    avail_h
                };
                proof {
                    assert(w2 == spec_crop_w(g, targets@));
                    assert(h2 == spec_crop_h(g, targets@));
                }
                if w2 == 0 || h2 == 0 {
                    Err(PipelineError::EmptyCrop)
                } else {
                    let out = crop_image(&canvas, oxi as u32, oyi as u32, w2 as u32, h2 as u32);
                    Ok(Some(out))
                }
            } else {
                Err(PipelineError::EmptyCrop)
            }
        },
    }
}

/// Everything `compose_frames` requires of its inputs, as one predicate.
pub open spec fn compose_inputs_ok(
    ts: Seq<OutputInfo>,
    fs: Seq<Option<CapturedFrame>>,
    has_crop: bool,
) -> bool {
    &&& ts.len() == fs.len()
    &&& (forall|i: int| 0 <= i < ts.len() ==> (#[trigger] ts[i]).wf())
    &&& (forall|i: int| 0 <= i < fs.len() ==> ((#[trigger] fs[i]) matches Some(f) ==> f.wf()))
    &&& ({
        let pairs = present_frames(ts, fs);
        (pairs.len() > 1 || (pairs.len() == 1 && has_crop)) ==> (layout_ok(ts)
            && scaled_frames_ok(pairs, max_scale_of(ts)))
    })
}

/// Decide whether `compose_frames` may be called on these inputs: records and
/// frames well formed, and - when a canvas will actually be assembled - the
/// canvas and every rescaled image addressable on this machine.
pub fn compose_fits(
    targets: &Vec<OutputInfo>,
    frames: &Vec<Option<CapturedFrame>>,
    has_crop: bool,
) -> (b: bool)
    ensures
        b == compose_inputs_ok(targets@, frames@, has_crop),
{
    let n = targets.len();
    if frames.len() != n {
        return false;
    }
    let mut i: usize = 0;
    while i < n
        invariant
            n == targets@.len(),
            0 <= i <= n,
            forall|j: int| 0 <= j < i ==> (#[trigger] targets@[j]).wf(),
        decreases n - i,
    {
        let t = targets[i];
        if t.width < 0 || t.height < 0 || t.scale < 1 {
            return false;
        }
        i = i + 1;
    }
    let mut count: usize = 0;
    let mut i: usize = 0;
    while i < n
        invariant
            n == targets@.len(),
            targets@.len() == frames@.len(),
            0 <= i <= n,
            count == present_frames(targets@.take(i as int), frames@.take(i as int)).len(),
            count <= i,
            forall|j: int|
                0 <= j < i ==> ((#[trigger] frames@[j]) matches Some(f) ==> f.wf()),
        decreases n - i,
    {
        proof {
            assert(targets@.take(i + 1).drop_last() =~= targets@.take(i as int));
            assert(frames@.take(i + 1).drop_last() =~= frames@.take(i as int));
            assert(targets@.take(i + 1).last() == targets@[i as int]);
            assert(frames@.take(i + 1).last() == frames@[i as int]);
        }
        let fo: &Option<CapturedFrame> = &frames[i];
        match fo {
            Some(f) => {
                proof {
                    assert((f.height as int) * (f.stride as int) <= u64::MAX) by (nonlinear_arith)
                        requires
                            f.height <= u32::MAX,
                            f.stride <= u32::MAX,
                    ;
                }
                if (f.stride as u64) < 4 * (f.width as u64) {
                    return false;
                }
                if (f.data.len() as u64) != (f.height as u64) * (f.stride as u64) {
                    return false;
                }
                count = count + 1;
            },
            None => {
            },
        }
        i = i + 1;
    }
    proof {
        assert(targets@.take(n as int) =~= targets@);
        assert(frames@.take(n as int) =~= frames@);
    }
    if !(count > 1 || (count == 1 && has_crop)) {
        return true;
    }
    let (min_x, min_y, max_x, max_y, scale) = bounds_scan(targets);
    proof {
        lemma_canvas_nonneg(targets@);
        assert({
            &&& (max_x as int - min_x as int) * (scale as int)
                <= 0x1_0000_0000_0000_0000_0000_0000_0000
            &&& (max_y as int - min_y as int) * (scale as int)
                <= 0x1_0000_0000_0000_0000_0000_0000_0000
            &&& (max_x as int - min_x as int) * (scale as int)
                >= -0x1_0000_0000_0000_0000_0000_0000_0000
            &&& (max_y as int - min_y as int) * (scale as int)
                >= -0x1_0000_0000_0000_0000_0000_0000_0000
        }) by (nonlinear_arith)
            requires
                i64::MIN <= max_x <= i64::MAX,
                i64::MIN <= max_y <= i64::MAX,
                -0x8000_0000 <= min_x <= 0x7FFF_FFFF,
                -0x8000_0000 <= min_y <= 0x7FFF_FFFF,
                1 <= scale <= 0x7FFF_FFFF,
        ;
    }
    let wi: i128 = (max_x as i128 - min_x as i128) * (scale as i128);
    let hi: i128 = (max_y as i128 - min_y as i128) * (scale as i128);
    if wi > u32::MAX as i128 || hi > u32::MAX as i128 {
        return false;
    }
    proof {
        assert(wi * hi * 4 <= 0x1_0000_0000_0000_0000_0000) by (nonlinear_arith)
            requires
                0 <= wi <= 0xFFFF_FFFF,
                0 <= hi <= 0xFFFF_FFFF,
        ;
    }
    if wi * hi * 4 > usize::MAX as i128 {
        return false;
    }
    let ghost gpairs = present_frames(targets@, frames@);
    let mut i: usize = 0;
    while i < n
        invariant
            n == targets@.len(),
            targets@.len() == frames@.len(),
            gpairs == present_frames(targets@, frames@),
            forall|j: int| 0 <= j < targets@.len() ==> (#[trigger] targets@[j]).wf(),
            forall|j: int|
                0 <= j < frames@.len() ==> ((#[trigger] frames@[j]) matches Some(f) ==> f.wf()),
            scale == max_scale_of(targets@),
            scale >= 1,
            count == gpairs.len(),
            count > 1 || (count == 1 && has_crop),
            layout_ok(targets@),
            0 <= i <= n,
            scaled_frames_ok(
                present_frames(targets@.take(i as int), frames@.take(i as int)),
                scale as int,
            ),
        decreases n - i,
    {
        proof {
            assert(targets@.take(i + 1).drop_last() =~= targets@.take(i as int));
            assert(frames@.take(i + 1).drop_last() =~= frames@.take(i as int));
            assert(targets@.take(i + 1).last() == targets@[i as int]);
            assert(frames@.take(i + 1).last() == frames@[i as int]);
        }
        let t = targets[i];
        let fo: &Option<CapturedFrame> = &frames[i];
        match fo {
            Some(f) => {
                if t.scale != scale {
                    let pw = scaled_dim_exec(f.width, t.scale as u32, scale as u32);
                    let ph = scaled_dim_exec(f.height, t.scale as u32, scale as u32);
                    let mut bad: bool = false;
                    if pw > u32::MAX as u128 || ph > u32::MAX as u128 {
                        bad = true;
                    } else {
                        proof {
                            assert(pw * ph * 4 <= 0x1_0000_0000_0000_0000_0000) by (
                            nonlinear_arith)
                                requires
                                    pw <= 0xFFFF_FFFF,
                                    ph <= 0xFFFF_FFFF,
                            ;
                        }
                        if pw * ph * 4 > usize::MAX as u128 {
                            bad = true;
                        }
                    }
                    if bad {
                        proof {
                            lemma_present_contains(targets@, frames@, i as int);
                            let k = choose|k: int|
                                0 <= k < gpairs.len() && #[trigger] gpairs[k] == (
                                targets@[i as int],
                                frames@[i as int]->Some_0,
                                );
                            assert(!scaled_frames_ok(gpairs, scale as int));
                        }
                        return false;
                    }
                }
            },
            None => {
            },
        }
        proof {
            let pp = present_frames(targets@.take(i as int), frames@.take(i as int));
            let pp2 = present_frames(targets@.take(i + 1), frames@.take(i + 1));
            assert forall|k2: int|
                0 <= k2 < pp2.len() implies ((#[trigger] pp2[k2]).0.scale != scale as int ==> {
                let pw = frame_placed_w(pp2[k2].1, pp2[k2].0, scale as int);
                let ph = frame_placed_h(pp2[k2].1, pp2[k2].0, scale as int);
                pw <= u32::MAX && ph <= u32::MAX && pw * ph * 4 <= usize::MAX
            }) by {
                if k2 < pp.len() {
                    assert(pp2[k2] == pp[k2]);
                }
            };
        }
        i = i + 1;
    }
    proof {
        assert(targets@.take(n as int) =~= targets@);
        assert(frames@.take(n as int) =~= frames@);
    }
    true
}

} // verus!
