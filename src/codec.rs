use vstd::prelude::*;
use crate::raster::{Raster, RasterError, valid_shape};

verus! {

#[verifier::external_type_specification]
#[verifier::external_body]
pub struct ExDecodingError(png::DecodingError);

#[verifier::external_type_specification]
#[verifier::external_body]
pub struct ExEncodingError(png::EncodingError);

#[verifier::external_type_specification]
#[verifier::external_body]
pub struct ExPngError(oxipng::PngError);

/// What png's decoder makes of a byte stream: `(width, height, channels,
/// bit depth, samples)` of its first frame, or `None` where it refuses the stream.
pub uninterp spec fn decoded_png(bytes: Seq<u8>) -> Option<(u32, u32, u8, u8, Seq<u8>)>;

/// What png's encoder writes for an 8-bit RGBA image, or `None` where it
/// refuses the dimensions or the sample buffer.
pub uninterp spec fn encoded_png(width: u32, height: u32, data: Seq<u8>) -> Option<Seq<u8>>;

/// What oxipng's default optimisation makes of a PNG stream, or `None` where
/// it refuses the stream.
pub uninterp spec fn optimized_png(bytes: Seq<u8>) -> Option<Seq<u8>>;

/// Why a codec step failed.
#[derive(Clone, Copy, Debug, PartialEq, Eq, Structural)]
pub enum CodecError {
    /// The bytes are not a PNG stream the decoder accepts.
    Decode,
    /// The decoded image is not an RGBA8 raster the engine accepts.
    InvalidRaster,
    /// The encoder refused the raster.
    Encode,
    /// The optimiser refused the encoded stream.
    Optimize,
}

/// Relies on png 0.17's `Decoder` with `Transformations::ALPHA`, reading the
/// first frame, and on its `OutputInfo` for the output colour type's channel
/// count and the output bit depth: the outcome depends on the bytes alone.
#[verifier::external_body]
fn png_decode(bytes: &Vec<u8>) -> (r: Result<(u32, u32, u8, u8, Vec<u8>), png::DecodingError>)
    ensures
        r is Ok <==> decoded_png(bytes@) is Some,
        r matches Ok(t) ==> decoded_png(bytes@) == Some((t.0, t.1, t.2, t.3, t.4@)),
{
    let mut decoder = png::Decoder::new(bytes.as_slice());
    decoder.set_transformations(png::Transformations::ALPHA);
    let mut reader = decoder.read_info()?;
    let mut buf = vec![0u8; reader.output_buffer_size()];
    let info = reader.next_frame(&mut buf)?;
    buf.truncate(info.buffer_size());
    Ok((info.width, info.height, info.color_type.samples() as u8, info.bit_depth as u8, buf))
}

/// Relies on png 0.17's `Encoder` writing an 8-bit RGBA image with fast
/// compression: the outcome depends on the arguments alone. Its writer
/// multiplies the row length by the height in `usize`, so the buffer length
/// `4 * width * height` must itself be a `usize`, as the buffer's length is.
#[verifier::external_body]
fn png_encode(width: u32, height: u32, data: &Vec<u8>) -> (r: Result<Vec<u8>, png::EncodingError>)
    requires
        width > 0,
        height > 0,
        data@.len() == 4 * width * height,
    ensures
        r is Ok <==> encoded_png(width, height, data@) is Some,
        r matches Ok(v) ==> encoded_png(width, height, data@) == Some(v@),
{
    let mut out: Vec<u8> = Vec::new();
    let mut encoder = png::Encoder::new(&mut out, width, height);
    encoder.set_color(png::ColorType::Rgba);
    encoder.set_depth(png::BitDepth::Eight);
    encoder.set_compression(png::Compression::Fast);
    let mut writer = encoder.write_header()?;
    writer.write_image_data(data.as_slice())?;
    writer.finish()?;
    Ok(out)
}

/// Relies on oxipng's `optimize_from_memory` with default options, which
/// run sequentially and without a deadline: the outcome depends on the bytes alone.
#[verifier::external_body]
fn png_optimize(bytes: &Vec<u8>) -> (r: Result<Vec<u8>, oxipng::PngError>)
    ensures
        r is Ok <==> optimized_png(bytes@) is Some,
        r matches Ok(v) ==> optimized_png(bytes@) == Some(v@),
{
    oxipng::optimize_from_memory(bytes.as_slice(), &oxipng::Options::default())
}

/// Decodes a PNG stream into a raster. The stream must decode to 8-bit
/// samples with four channels per pixel; any other layout gives `InvalidRaster`.
pub fn decode_raster(bytes: &Vec<u8>) -> (r: Result<Raster, CodecError>)
    ensures
        decoded_png(bytes@) is None ==> r == Err::<Raster, CodecError>(CodecError::Decode),
        decoded_png(bytes@) matches Some(t) ==> {
            &&& r is Ok <==> (t.2 == 4 && t.3 == 8 && valid_shape(
                t.0 as int,
                t.1 as int,
                t.4.len() as int,
            ))
            &&& r matches Ok(ras) ==> ras.width == t.0 && ras.height == t.1 && ras.pixels@ == t.4
            &&& r matches Err(e) ==> e == CodecError::InvalidRaster
        },
{
    match png_decode(bytes) {
        Err(_) => Err(CodecError::Decode),
        Ok((w, h, channels, depth, data)) => {
            if channels != 4 || depth != 8 {
                return Err(CodecError::InvalidRaster);
            }
            match Raster::new(w as usize, h as usize, data) {
                Ok(ras) => Ok(ras),
                Err(RasterError::InvalidRaster) => Err(CodecError::InvalidRaster),
            }
        },
    }
}

/// Encodes a raster as an 8-bit RGBA PNG stream. A raster that is not well
/// formed gives `InvalidRaster`; a dimension beyond `u32`, which PNG cannot
/// record, gives `Encode`.
pub fn encode_raster(img: &Raster) -> (r: Result<Vec<u8>, CodecError>)
    ensures
        !img.wf() ==> r == Err::<Vec<u8>, CodecError>(CodecError::InvalidRaster),
        img.wf() && (img.width > u32::MAX || img.height > u32::MAX) ==> r == Err::<
            Vec<u8>,
            CodecError,
        >(CodecError::Encode),
        img.wf() && img.width <= u32::MAX && img.height <= u32::MAX ==> match encoded_png(
            img.width as u32,
            img.height as u32,
            img.pixels@,
        ) {
            None => r == Err::<Vec<u8>, CodecError>(CodecError::Encode),
            Some(v) => r matches Ok(out) && out@ == v,
        },
{
    if !img.is_wf() {
        return Err(CodecError::InvalidRaster);
    }
    if img.width > u32::MAX as usize || img.height > u32::MAX as usize {
        return Err(CodecError::Encode);
    }
    proof {
        let w = img.width as int;
        let h = img.height as int;
        assert(w * h * 4 == 4 * w * h) by (nonlinear_arith);
    }
    match png_encode(img.width as u32, img.height as u32, &img.pixels) {
        Ok(v) => Ok(v),
        Err(_) => Err(CodecError::Encode),
    }
}

/// Losslessly recompresses a PNG stream.
pub fn optimize_png(bytes: &Vec<u8>) -> (r: Result<Vec<u8>, CodecError>)
    ensures
        match optimized_png(bytes@) {
            None => r == Err::<Vec<u8>, CodecError>(CodecError::Optimize),
            Some(v) => r matches Ok(out) && out@ == v,
        },
{
    match png_optimize(bytes) {
        Ok(v) => Ok(v),
        Err(_) => Err(CodecError::Optimize),
    }
}

/// Encodes a raster as PNG and then recompresses the stream.
pub fn encode_optimized(img: &Raster) -> (r: Result<Vec<u8>, CodecError>)
    ensures
        !img.wf() ==> r == Err::<Vec<u8>, CodecError>(CodecError::InvalidRaster),
        img.wf() && (img.width > u32::MAX || img.height > u32::MAX) ==> r == Err::<
            Vec<u8>,
            CodecError,
        >(CodecError::Encode),
        img.wf() && img.width <= u32::MAX && img.height <= u32::MAX ==> match encoded_png(
            img.width as u32,
            img.height as u32,
            img.pixels@,
        ) {
            None => r == Err::<Vec<u8>, CodecError>(CodecError::Encode),
            Some(v) => match optimized_png(v) {
                None => r == Err::<Vec<u8>, CodecError>(CodecError::Optimize),
                Some(o) => r matches Ok(out) && out@ == o,
            },
        },
{
    let encoded = encode_raster(img)?;
    optimize_png(&encoded)
}

} // verus!
