use vstd::prelude::*;
use crate::image::{Canvas, Image};

verus! {

/// The error of the `png` crate's encoder. Nothing is known of its content
/// here but what `encoder_failure` reports.
#[verifier::external_type_specification]
#[verifier::external_body]
pub struct ExEncodingError(png::EncodingError);

/// The PNG stream that the `png` crate's encoder writes, with the settings
/// it starts from, for an image of `width` by `height` pixels of eight-bit
/// RGBA whose samples are `rgba`; or nothing, where the encoder fails.
pub uninterp spec fn png_stream(width: u32, height: u32, rgba: Seq<u8>) -> Option<Seq<u8>>;

/// What went wrong inside the encoder.
#[derive(Clone, Copy, Debug, PartialEq, Eq, Structural)]
pub enum EncoderFailure {
    /// The encoder could not write to its sink.
    Io,
    /// The encoder refused the image's format.
    Format,
    /// The encoder refused one of its arguments.
    Parameter,
    /// A limit of the encoder was exceeded.
    LimitsExceeded,
}

/// Why an image was not saved.
#[derive(Clone, Copy, Debug, PartialEq, Eq, Structural)]
pub enum PngError {
    /// The image has more rows than a PNG header can state, rows longer than
    /// the compressor can count, or more samples than can be addressed.
    TooLarge,
    /// The encoder failed.
    Encoder(EncoderFailure),
}

/// Whether an image of `width` by `height` pixels is one that can be handed
/// to the encoder: each dimension fits the 32 bits that a PNG header gives
/// it; a row, with one leading byte for its filter, has a length of at most
/// 32 bits, in which the compressor counts a run of equal bytes; and the
/// rows together can be counted in a `usize`.
pub open spec fn fits_png(width: nat, height: nat) -> bool {
    &&& width <= u32::MAX
    &&& height <= u32::MAX
    &&& 4 * width + 1 <= u32::MAX
    &&& (4 * width + 1) * height <= usize::MAX
}

/// What the encoder makes of a canvas that fits the format.
pub open spec fn encoding(g: Canvas) -> Option<Seq<u8>> {
    png_stream(g.width as u32, g.height as u32, g.bytes())
}

/// Runs `png::Encoder` over a byte vector: `Encoder::new` with the two
/// dimensions, `set_color` with `ColorType::Rgba`, `set_depth` with
/// `BitDepth::Eight`, `write_header`, then `Writer::write_image_data` with
/// `rgba` and `Writer::finish`. Trusted: the encoder writes to memory only,
/// so whether it succeeds and what it writes depend on nothing but the three
/// arguments, and `png_stream` names that outcome; and no stream comes back
/// for an image without columns or rows, nor for samples that are not four
/// per pixel. The bounds asked for are those under which the counting stays
/// in range: the encoder counts the bytes of all rows in a `usize`, and the
/// compressor behind it, which is handed one row at a time, counts a run of
/// zero bytes within a row in 32 bits.
#[verifier::external_body]
fn encode_rgba8(width: u32, height: u32, rgba: &Vec<u8>) -> (r: Result<Vec<u8>, png::EncodingError>)
    requires
        4 * width + 1 <= u32::MAX,
        (4 * width + 1) * height <= usize::MAX,
    ensures
        r matches Ok(stream) ==> png_stream(width, height, rgba@) == Some(stream@),
        r is Err ==> png_stream(width, height, rgba@) is None,
        r is Ok ==> width > 0 && height > 0 && rgba@.len() == 4 * width * height,
{
    let mut stream: Vec<u8> = Vec::new();
    let mut encoder = png::Encoder::new(&mut stream, width, height);
    encoder.set_color(png::ColorType::Rgba);
    encoder.set_depth(png::BitDepth::Eight);
    let mut writer = encoder.write_header()?;
    writer.write_image_data(rgba)?;
    writer.finish()?;
    Ok(stream)
}

/// Tells the variants of `png::EncodingError` apart. Trusted; nothing is
/// claimed of the answer.
#[verifier::external_body]
fn encoder_failure(error: &png::EncodingError) -> (kind: EncoderFailure) {
    match error {
        png::EncodingError::IoError(_) => EncoderFailure::Io,
        png::EncodingError::Format(_) => EncoderFailure::Format,
        png::EncodingError::Parameter(_) => EncoderFailure::Parameter,
        png::EncodingError::LimitsExceeded => EncoderFailure::LimitsExceeded,
    }
}

/// Appends to `sink` the stream that the encoder produced, or reports its
/// failure and leaves `sink` as it was.
pub fn deliver(encoded: Result<Vec<u8>, png::EncodingError>, sink: &mut Vec<u8>) -> (r: Result<(), PngError>)
    ensures
        encoded matches Ok(stream) ==> r is Ok && final(sink)@ == old(sink)@ + stream@,
        encoded is Err ==> (r matches Err(PngError::Encoder(_))) && final(sink)@ == old(sink)@,
{
    match encoded {
        Ok(mut stream) => {
            sink.append(&mut stream);
            Ok(())
        },
        Err(error) => Err(PngError::Encoder(encoder_failure(&error))),
    }
}

/// The dimensions of an image as a PNG header states them, or
/// `PngError::TooLarge` where the image does not fit the format.
pub fn png_dimensions(width: usize, height: usize) -> (r: Result<(u32, u32), PngError>)
    ensures
        r is Ok <==> fits_png(width as nat, height as nat),
        r matches Ok(d) ==> d.0 == width && d.1 == height,
        r matches Err(e) ==> e == PngError::TooLarge,
{
    if width > (u32::MAX as usize - 1) / 4 || height > u32::MAX as usize {
        return Err(PngError::TooLarge);
    }
    assert((4 * width + 1) * height <= 0x5_0000_0000 * 0x1_0000_0000) by (nonlinear_arith)
        requires
            0 <= width <= 0xffff_ffff,
            0 <= height <= 0xffff_ffff,
    ;
    let rows: u128 = (4 * (width as u128) + 1) * (height as u128);
    if rows > usize::MAX as u128 {
        return Err(PngError::TooLarge);
    }
    Ok((width as u32, height as u32))
}

impl Image {
    /// Appends the image to `sink` as a PNG stream of eight-bit RGBA, every
    /// pixel fully opaque. An image that does not fit the format is refused
    /// before the encoder is asked; where the encoder fails, it is with
    /// `PngError::Encoder` and nothing is appended.
    pub fn save_to_png(&self, sink: &mut Vec<u8>) -> (r: Result<(), PngError>)
        requires
            self@.wf(),
        ensures
            r is Ok <==> fits_png(self@.width, self@.height) && encoding(self@) is Some,
            r is Ok ==> final(sink)@ == old(sink)@ + encoding(self@).unwrap(),
            r is Err ==> final(sink)@ == old(sink)@,
            r == Err::<(), PngError>(PngError::TooLarge) <==> !fits_png(self@.width, self@.height),
    {
        match png_dimensions(self.width(), self.height()) {
            Ok((width, height)) => {
                let rgba: Vec<u8> = self.to_rgba_bytes();
                deliver(encode_rgba8(width, height, &rgba), sink)
            },
            Err(e) => Err(e),
        }
    }
}

} // verus!
