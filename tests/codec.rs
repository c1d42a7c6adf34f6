use blockflat::codec::{decode_raster, encode_optimized, encode_raster, optimize_png, CodecError};
use blockflat::raster::Raster;

const SIGNATURE: [u8; 8] = [137, 80, 78, 71, 13, 10, 26, 10];

fn sample() -> Raster {
    let mut pixels = Vec::new();
    for i in 0..12u8 {
        pixels.extend_from_slice(&[i * 20, 255 - i * 20, i, 255]);
    }
    Raster::new(4, 3, pixels).unwrap()
}

#[test]
fn encode_then_decode_round_trips() {
    let img = sample();
    let bytes = encode_raster(&img).unwrap();
    assert_eq!(&bytes[..8], &SIGNATURE);
    let back = decode_raster(&bytes).unwrap();
    assert_eq!((back.width, back.height), (4, 3));
    assert_eq!(back.pixels, img.pixels);
}

#[test]
fn optimized_stream_decodes_to_same_pixels() {
    let img = sample();
    let bytes = encode_optimized(&img).unwrap();
    assert_eq!(&bytes[..8], &SIGNATURE);
    let back = decode_raster(&bytes).unwrap();
    assert_eq!(back.pixels, img.pixels);
}

#[test]
fn optimize_keeps_pixels() {
    let img = sample();
    let encoded = encode_raster(&img).unwrap();
    let optimized = optimize_png(&encoded).unwrap();
    assert_eq!(decode_raster(&optimized).unwrap().pixels, img.pixels);
}

#[test]
fn garbage_does_not_decode() {
    let bytes = vec![1u8, 2, 3, 4, 5];
    assert_eq!(decode_raster(&bytes).unwrap_err(), CodecError::Decode);
}

#[test]
fn garbage_does_not_optimize() {
    let bytes = vec![1u8, 2, 3, 4, 5];
    assert_eq!(optimize_png(&bytes).unwrap_err(), CodecError::Optimize);
}

#[test]
fn grayscale_png_is_not_a_raster() {
    let mut out: Vec<u8> = Vec::new();
    {
        let mut encoder = png::Encoder::new(&mut out, 2, 2);
        encoder.set_color(png::ColorType::Grayscale);
        encoder.set_depth(png::BitDepth::Eight);
        let mut writer = encoder.write_header().unwrap();
        writer.write_image_data(&[0, 50, 100, 150]).unwrap();
    }
    assert_eq!(decode_raster(&out).unwrap_err(), CodecError::InvalidRaster);
}

#[test]
fn optimize_shrinks_a_loosely_encoded_stream() {
    let img = Raster::new(64, 64, [12u8, 34, 56, 255].repeat(64 * 64)).unwrap();
    let encoded = encode_raster(&img).unwrap();
    let optimized = optimize_png(&encoded).unwrap();
    assert!(optimized.len() < encoded.len());
    assert_eq!(decode_raster(&optimized).unwrap().pixels, img.pixels);
}

#[test]
fn malformed_raster_is_not_encoded() {
    let img = Raster { width: u32::MAX as usize, height: u32::MAX as usize, pixels: vec![] };
    assert_eq!(encode_raster(&img).unwrap_err(), CodecError::InvalidRaster);
    assert_eq!(encode_optimized(&img).unwrap_err(), CodecError::InvalidRaster);
    let short = Raster { width: 2, height: 2, pixels: vec![0; 15] };
    assert_eq!(encode_raster(&short).unwrap_err(), CodecError::InvalidRaster);
}

#[test]
fn sixteen_bit_grayscale_png_is_not_a_raster() {
    let mut out: Vec<u8> = Vec::new();
    {
        let mut encoder = png::Encoder::new(&mut out, 2, 1);
        encoder.set_color(png::ColorType::Grayscale);
        encoder.set_depth(png::BitDepth::Sixteen);
        let mut writer = encoder.write_header().unwrap();
        writer.write_image_data(&[0, 50, 100, 150]).unwrap();
    }
    assert_eq!(decode_raster(&out).unwrap_err(), CodecError::InvalidRaster);
}
