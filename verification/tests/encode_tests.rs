use wlshot::encode::encode_png;
use wlshot::raster::Image;

#[test]
fn png_stream_decodes_back_to_the_pixels() {
    let data: Vec<u8> = (0u8..16).collect();
    let img = Image { width: 2, height: 2, data: data.clone() };
    let bytes = encode_png(&img).expect("a 2x2 raster is encodable");
    // A PNG stream, not the raw pixels handed back.
    assert_eq!(&bytes[..8], &[137, 80, 78, 71, 13, 10, 26, 10]);
    assert_ne!(bytes, data);

    let decoder = png::Decoder::new(std::io::Cursor::new(&bytes[..]));
    let mut reader = decoder.read_info().expect("valid PNG header");
    let mut buf = vec![0u8; reader.output_buffer_size().expect("sane buffer size")];
    let info = reader.next_frame(&mut buf).expect("valid PNG frame");
    assert_eq!(info.width, 2);
    assert_eq!(info.height, 2);
    assert_eq!(info.color_type, png::ColorType::Rgba);
    assert_eq!(info.bit_depth, png::BitDepth::Eight);
    assert_eq!(&buf[..info.buffer_size()], &data[..]);
}

#[test]
fn wide_single_row_survives_the_round_trip() {
    let data: Vec<u8> = (0..40u8).map(|b| b.wrapping_mul(7)).collect();
    let img = Image { width: 10, height: 1, data: data.clone() };
    let bytes = encode_png(&img).expect("a 10x1 raster is encodable");
    let decoder = png::Decoder::new(std::io::Cursor::new(&bytes[..]));
    let mut reader = decoder.read_info().expect("valid PNG header");
    let mut buf = vec![0u8; reader.output_buffer_size().expect("sane buffer size")];
    let info = reader.next_frame(&mut buf).expect("valid PNG frame");
    assert_eq!((info.width, info.height), (10, 1));
    assert_eq!(&buf[..info.buffer_size()], &data[..]);
}

#[test]
fn degenerate_raster_is_refused_without_panicking() {
    let img = Image { width: 0, height: 0, data: Vec::new() };
    assert!(encode_png(&img).is_none());
}
