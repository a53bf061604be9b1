use shape_raster::color::Color;
use shape_raster::encode::{deliver, png_dimensions, EncoderFailure, PngError};
use shape_raster::image::Image;

const SIGNATURE: [u8; 8] = [137, 80, 78, 71, 13, 10, 26, 10];

fn decode(stream: &[u8]) -> (u32, u32, png::ColorType, png::BitDepth, Vec<u8>) {
    let decoder = png::Decoder::new(stream);
    let mut reader = decoder.read_info().unwrap();
    let mut buffer = vec![0; reader.output_buffer_size()];
    let info = reader.next_frame(&mut buffer).unwrap();
    buffer.truncate(info.buffer_size());
    (info.width, info.height, info.color_type, info.bit_depth, buffer)
}

#[test]
fn saved_stream_decodes_to_the_image() {
    let mut img = Image::new(3, 2, Color::white());
    img.set_pixel(0, 0, Color::red());
    img.set_pixel(2, 1, Color::new(1, 2, 3));
    let mut sink = Vec::new();
    assert_eq!(img.save_to_png(&mut sink), Ok(()));
    assert_eq!(&sink[..8], &SIGNATURE);
    assert_ne!(sink, img.to_rgba_bytes());
    let (width, height, color, depth, samples) = decode(&sink);
    assert_eq!((width, height), (3, 2));
    assert_eq!(color, png::ColorType::Rgba);
    assert_eq!(depth, png::BitDepth::Eight);
    assert_eq!(samples, img.to_rgba_bytes());
}

#[test]
fn saved_stream_ends_with_the_end_chunk() {
    let img = Image::new(1, 1, Color::black());
    let mut sink = Vec::new();
    assert_eq!(img.save_to_png(&mut sink), Ok(()));
    let tail = &sink[sink.len() - 12..];
    assert_eq!(tail, &[0, 0, 0, 0, 73, 69, 78, 68, 0xae, 0x42, 0x60, 0x82]);
}

#[test]
fn saving_is_deterministic() {
    let mut img = Image::new(16, 9, Color::green());
    img.set_pixel(7, 4, Color::blue());
    let mut first = Vec::new();
    let mut second = Vec::new();
    assert_eq!(img.save_to_png(&mut first), Ok(()));
    assert_eq!(img.save_to_png(&mut second), Ok(()));
    assert_eq!(first, second);
}

#[test]
fn saving_appends_to_the_sink() {
    let img = Image::new(2, 2, Color::white());
    let mut alone = Vec::new();
    assert_eq!(img.save_to_png(&mut alone), Ok(()));
    let mut sink = vec![1, 2, 3];
    assert_eq!(img.save_to_png(&mut sink), Ok(()));
    assert_eq!(&sink[..3], &[1, 2, 3]);
    assert_eq!(&sink[3..], &alone[..]);
}

#[test]
fn a_delivered_stream_is_appended() {
    let mut sink = vec![9];
    assert_eq!(deliver(Ok(vec![1, 2]), &mut sink), Ok(()));
    assert_eq!(sink, vec![9, 1, 2]);
}

#[test]
fn an_encoder_failure_leaves_the_sink_alone() {
    let mut sink = vec![9];
    let r = deliver(Err(png::EncodingError::LimitsExceeded), &mut sink);
    assert_eq!(r, Err(PngError::Encoder(EncoderFailure::LimitsExceeded)));
    assert_eq!(sink, vec![9]);
    let io = std::io::Error::new(std::io::ErrorKind::Other, "closed");
    let r = deliver(Err(png::EncodingError::IoError(io)), &mut sink);
    assert_eq!(r, Err(PngError::Encoder(EncoderFailure::Io)));
    assert_eq!(sink, vec![9]);
}

#[test]
fn each_kind_of_encoder_failure_is_told_apart() {
    let mut sink = vec![7];
    let format = match png::Encoder::new(Vec::new(), 0, 1).write_header() {
        Err(e) => e,
        Ok(_) => panic!("an image without columns was accepted"),
    };
    assert_eq!(deliver(Err(format), &mut sink), Err(PngError::Encoder(EncoderFailure::Format)));
    let mut writer = png::Encoder::new(Vec::new(), 2, 2).write_header().unwrap();
    let parameter = writer.write_image_data(&[0, 0, 0]).unwrap_err();
    assert_eq!(
        deliver(Err(parameter), &mut sink),
        Err(PngError::Encoder(EncoderFailure::Parameter))
    );
    assert_eq!(sink, vec![7]);
}

#[test]
fn dimensions_that_fit_the_format() {
    assert_eq!(png_dimensions(1, 1), Ok((1, 1)));
    assert_eq!(png_dimensions(1000, 1000), Ok((1000, 1000)));
    assert_eq!(png_dimensions(1, u32::MAX as usize), Ok((1, u32::MAX)));
    // The longest row whose bytes, with the one for its filter, fit 32 bits.
    assert_eq!(png_dimensions(1_073_741_823, 1), Ok((1_073_741_823, 1)));
    assert_eq!(png_dimensions(1_073_741_823, 7), Ok((1_073_741_823, 7)));
}

#[test]
fn dimensions_beyond_the_format_are_too_large() {
    assert_eq!(png_dimensions(1_073_741_824, 1), Err(PngError::TooLarge));
    assert_eq!(png_dimensions(1_073_741_826, 1), Err(PngError::TooLarge));
    assert_eq!(png_dimensions(u32::MAX as usize, 1), Err(PngError::TooLarge));
    assert_eq!(png_dimensions(u32::MAX as usize + 1, 1), Err(PngError::TooLarge));
    assert_eq!(png_dimensions(1, u32::MAX as usize + 1), Err(PngError::TooLarge));
    assert_eq!(png_dimensions(usize::MAX, usize::MAX), Err(PngError::TooLarge));
    assert_eq!(png_dimensions(usize::MAX, 0), Err(PngError::TooLarge));
}

#[test]
fn a_row_of_one_colour_is_saved_and_read_back() {
    let img = Image::new(5000, 2, Color::black());
    let mut sink = Vec::new();
    assert_eq!(img.save_to_png(&mut sink), Ok(()));
    let (width, height, _, _, samples) = decode(&sink);
    assert_eq!((width, height), (5000, 2));
    assert_eq!(samples, img.to_rgba_bytes());
}
