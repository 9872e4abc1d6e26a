use wlshot::compose::{compose_fits, compose_frames};
use wlshot::convert::{convert_frame, convert_row, frame_new, CapturedFrame};
use wlshot::error::PipelineError;
use wlshot::geometry::{OutputInfo, Region};
use wlshot::raster::{blank_image, overlay_image, resample_nearest, Image};

fn output(id: u32, x: i32, y: i32, width: i32, height: i32, scale: i32) -> OutputInfo {
    OutputInfo { id, xdg_id: None, x, y, width, height, scale }
}

fn frame(format: u32, width: u32, height: u32, stride: u32, data: Vec<u8>) -> CapturedFrame {
    frame_new(format, width, height, stride, data).expect("well-formed frame")
}

#[test]
fn conversion_swaps_bgr_and_forces_opaque_alpha() {
    // A 2x1 buffer with stride 8; the bytes beyond 2 * 4 would be padding.
    let data = vec![5, 6, 7, 8, 15, 16, 17, 18];
    let f = frame(1, 2, 1, 8, data);
    let img = convert_frame(&f).expect("supported format");
    assert_eq!(img.width, 2);
    assert_eq!(img.height, 1);
    assert_eq!(img.data, vec![7, 6, 5, 255, 17, 16, 15, 255]);
}

#[test]
fn conversion_ignores_row_padding_bytes() {
    // Two rows of one pixel with stride 8: four padding bytes per row.
    let data = vec![1, 2, 3, 4, 170, 170, 170, 170, 9, 10, 11, 12, 170, 170, 170, 170];
    let f = frame(0, 1, 2, 8, data);
    let img = convert_frame(&f).expect("supported format");
    assert_eq!(img.data, vec![3, 2, 1, 255, 11, 10, 9, 255]);
}

#[test]
fn unknown_pixel_format_is_a_hard_error() {
    let f = frame(7, 1, 1, 4, vec![1, 2, 3, 4]);
    assert_eq!(convert_frame(&f), Err(PipelineError::UnsupportedFormat));
}

#[test]
fn frame_new_rejects_bad_geometry() {
    assert!(frame_new(1, 2, 1, 7, vec![0; 7]).is_none());
    assert!(frame_new(1, 2, 1, 8, vec![0; 9]).is_none());
    assert!(frame_new(1, 2, 1, 8, vec![0; 8]).is_some());
}

#[test]
fn single_output_capture_byte_matches_converted_frame() {
    let t = output(0, 0, 0, 2, 1, 1);
    let data = vec![5, 6, 7, 8, 15, 16, 17, 18];
    let f = frame(1, 2, 1, 8, data.clone());
    let expected = convert_frame(&frame(1, 2, 1, 8, data)).unwrap();

    let targets = vec![t];
    let frames = vec![Some(f)];
    assert!(compose_fits(&targets, &frames, false));
    let out = compose_frames(&targets, &frames, None)
        .expect("no error")
        .expect("an image");
    assert_eq!(out.width, expected.width);
    assert_eq!(out.height, expected.height);
    assert_eq!(out.data, expected.data);
}

#[test]
fn all_captures_failing_yields_no_image() {
    let targets = vec![output(0, 0, 0, 2, 1, 1)];
    let frames: Vec<Option<CapturedFrame>> = vec![None];
    assert!(compose_fits(&targets, &frames, false));
    assert_eq!(compose_frames(&targets, &frames, None).unwrap().is_none(), true);
}

#[test]
fn failed_output_is_skipped_and_the_rest_still_composes() {
    let targets = vec![output(0, 0, 0, 2, 1, 1), output(1, 2, 0, 2, 1, 1)];
    let f = frame(1, 2, 1, 8, vec![5, 6, 7, 8, 15, 16, 17, 18]);
    let frames = vec![Some(f), None];
    let out = compose_frames(&targets, &frames, None).unwrap().unwrap();
    assert_eq!(out.data, convert_frame(&frame(1, 2, 1, 8, vec![5, 6, 7, 8, 15, 16, 17, 18]))
        .unwrap()
        .data);
}

#[test]
fn adjacent_outputs_compose_side_by_side() {
    // Two 2x1 outputs at the same scale, B immediately right of A.
    let a = output(0, 0, 0, 2, 1, 1);
    let b = output(1, 2, 0, 2, 1, 1);
    let fa = frame(1, 2, 1, 8, vec![10, 20, 30, 0, 11, 21, 31, 0]);
    let fb = frame(1, 2, 1, 8, vec![40, 50, 60, 0, 41, 51, 61, 0]);
    let targets = vec![a, b];
    let frames = vec![Some(fa), Some(fb)];
    assert!(compose_fits(&targets, &frames, false));
    let out = compose_frames(&targets, &frames, None).unwrap().unwrap();
    // Canvas width is the sum of the logical widths times the scale.
    assert_eq!(out.width, 4);
    assert_eq!(out.height, 1);
    assert_eq!(
        out.data,
        vec![
            30, 20, 10, 255, 31, 21, 11, 255, // A verbatim at offset 0
            60, 50, 40, 255, 61, 51, 41, 255, // B verbatim at offset 2
        ]
    );
}

#[test]
fn scale_one_output_doubles_into_scale_two_canvas() {
    // A runs at scale 1, B at scale 2, so the composite scale is 2 and A's
    // 1x1 image must appear as an exact 2x2 block.
    let a = output(0, 0, 0, 1, 1, 1);
    let b = output(1, 1, 0, 1, 1, 2);
    let fa = frame(1, 1, 1, 4, vec![0, 0, 255, 7]);
    let fb = frame(
        1,
        2,
        2,
        8,
        vec![1, 2, 3, 0, 4, 5, 6, 0, 7, 8, 9, 0, 10, 11, 12, 0],
    );
    let targets = vec![a, b];
    let frames = vec![Some(fa), Some(fb)];
    assert!(compose_fits(&targets, &frames, false));
    let out = compose_frames(&targets, &frames, None).unwrap().unwrap();
    assert_eq!(out.width, 4);
    assert_eq!(out.height, 2);
    let red = [255u8, 0, 0, 255];
    let mut expected: Vec<u8> = Vec::new();
    expected.extend_from_slice(&red);
    expected.extend_from_slice(&red);
    expected.extend_from_slice(&[3, 2, 1, 255]);
    expected.extend_from_slice(&[6, 5, 4, 255]);
    expected.extend_from_slice(&red);
    expected.extend_from_slice(&red);
    expected.extend_from_slice(&[9, 8, 7, 255]);
    expected.extend_from_slice(&[12, 11, 10, 255]);
    assert_eq!(out.data, expected);
}

#[test]
fn resampling_doubles_pixels_into_blocks() {
    let src = Image { width: 2, height: 1, data: vec![1, 2, 3, 4, 5, 6, 7, 8] };
    let dst = resample_nearest(&src, 4, 2);
    assert_eq!(dst.width, 4);
    assert_eq!(dst.height, 2);
    let row: Vec<u8> = vec![1, 2, 3, 4, 1, 2, 3, 4, 5, 6, 7, 8, 5, 6, 7, 8];
    let mut expected = row.clone();
    expected.extend_from_slice(&row);
    assert_eq!(dst.data, expected);
}

#[test]
fn crop_is_clamped_to_the_canvas() {
    // One 4x1 output; the requested region is far wider than the canvas.
    let t = output(0, 0, 0, 4, 1, 1);
    let f = frame(
        1,
        4,
        1,
        16,
        vec![1, 2, 3, 0, 4, 5, 6, 0, 7, 8, 9, 0, 10, 11, 12, 0],
    );
    let targets = vec![t];
    let frames = vec![Some(f)];
    let crop = Region { x: 2, y: 0, width: 100, height: 1 };
    assert!(compose_fits(&targets, &frames, true));
    let out = compose_frames(&targets, &frames, Some(crop)).unwrap().unwrap();
    assert_eq!(out.width, 2);
    assert_eq!(out.height, 1);
    assert_eq!(out.data, vec![9, 8, 7, 255, 12, 11, 10, 255]);
}

#[test]
fn crop_outside_the_canvas_is_an_empty_crop_error() {
    let t = output(0, 0, 0, 4, 1, 1);
    let f = frame(
        1,
        4,
        1,
        16,
        vec![1, 2, 3, 0, 4, 5, 6, 0, 7, 8, 9, 0, 10, 11, 12, 0],
    );
    let targets = vec![t];
    let frames = vec![Some(f)];
    let crop = Region { x: 10, y: 0, width: 5, height: 1 };
    assert_eq!(
        compose_frames(&targets, &frames, Some(crop)),
        Err(PipelineError::EmptyCrop)
    );
    let zero_width = Region { x: 0, y: 0, width: 0, height: 1 };
    assert_eq!(
        compose_frames(&targets, &frames, Some(zero_width)),
        Err(PipelineError::EmptyCrop)
    );
}

#[test]
fn unsupported_format_aborts_the_whole_composition() {
    let targets = vec![output(0, 0, 0, 1, 1, 1), output(1, 1, 0, 1, 1, 1)];
    let good = frame(1, 1, 1, 4, vec![1, 2, 3, 0]);
    let bad = frame(9, 1, 1, 4, vec![1, 2, 3, 0]);
    let frames = vec![Some(good), Some(bad)];
    assert_eq!(
        compose_frames(&targets, &frames, None),
        Err(PipelineError::UnsupportedFormat)
    );
}

#[test]
fn compose_fits_rejects_degenerate_records() {
    let bad_scale = vec![output(0, 0, 0, 4, 1, 0)];
    let frames: Vec<Option<CapturedFrame>> = vec![None];
    assert!(!compose_fits(&bad_scale, &frames, false));
    let negative_width = vec![output(0, 0, 0, -4, 1, 1)];
    assert!(!compose_fits(&negative_width, &frames, false));
    let mismatched: Vec<Option<CapturedFrame>> = Vec::new();
    assert!(!compose_fits(&bad_scale, &mismatched, false));
}

fn patterned_frame(id: u8, width: u32, height: u32) -> CapturedFrame {
    let mut data = Vec::new();
    for y in 0..height {
        for x in 0..width {
            data.extend_from_slice(&[x as u8, y as u8, 100 + id, 0]);
        }
    }
    frame(1, width, height, width * 4, data)
}

#[test]
fn crop_spanning_two_outputs_reads_from_both() {
    let a = output(0, 0, 0, 19, 10, 1);
    let b = output(1, 19, 0, 19, 10, 1);
    let region = Region { x: 18, y: 5, width: 2, height: 2 };
    let outputs = vec![a, b];
    let targets = wlshot::geometry::select_targets(&outputs, Some(region));
    assert_eq!(targets.len(), 2);
    let frames = vec![Some(patterned_frame(0, 19, 10)), Some(patterned_frame(1, 19, 10))];
    assert!(compose_fits(&targets, &frames, true));
    let out = compose_frames(&targets, &frames, Some(region)).unwrap().unwrap();
    assert_eq!((out.width, out.height), (2, 2));
    assert_eq!(
        out.data,
        vec![
            100, 5, 18, 255, 101, 5, 0, 255, // row at canvas y = 5: A's last column, B's first
            100, 6, 18, 255, 101, 6, 0, 255, // row at canvas y = 6
        ]
    );
}

#[test]
fn gap_between_outputs_stays_transparent_black() {
    let a = output(0, 0, 0, 1, 1, 1);
    let b = output(1, 2, 0, 1, 1, 1);
    let targets = vec![a, b];
    let frames = vec![
        Some(frame(1, 1, 1, 4, vec![1, 2, 3, 0])),
        Some(frame(1, 1, 1, 4, vec![4, 5, 6, 0])),
    ];
    let out = compose_frames(&targets, &frames, None).unwrap().unwrap();
    assert_eq!((out.width, out.height), (3, 1));
    assert_eq!(out.data, vec![3, 2, 1, 255, 0, 0, 0, 0, 6, 5, 4, 255]);
}

#[test]
fn rows_convert_independently_and_concatenate() {
    let data = vec![1, 2, 3, 4, 170, 170, 170, 170, 9, 10, 11, 12, 170, 170, 170, 170];
    let f = frame(0, 1, 2, 8, data);
    // Rows computed out of order, merged by row index.
    let row1 = convert_row(&f, 1);
    let row0 = convert_row(&f, 0);
    let mut merged = row0;
    merged.extend_from_slice(&row1);
    assert_eq!(merged, convert_frame(&f).unwrap().data);
}

#[test]
fn overlay_clips_at_the_canvas_edge_and_later_wins() {
    let canvas = blank_image(2, 1);
    let src = Image { width: 2, height: 1, data: vec![1, 1, 1, 1, 2, 2, 2, 2] };
    let once = overlay_image(&canvas, &src, 1, 0);
    // Only the first source pixel fits; the second is clipped away.
    assert_eq!(once.data, vec![0, 0, 0, 0, 1, 1, 1, 1]);
    let twice = overlay_image(&once, &src, 0, 0);
    // A later overlay overwrites what an earlier one placed.
    assert_eq!(twice.data, vec![1, 1, 1, 1, 2, 2, 2, 2]);
}
