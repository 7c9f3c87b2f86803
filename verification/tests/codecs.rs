use codimate::codecs::{decode_jpeg, decode_png, encode_png, pixels_from_jpeg, pixels_from_png, JpegPixelFormat, PngColourType};
use codimate::pixels::Bitmap;

/// A small baseline JPEG picture.
const PICTURE_JPG: [u8; 543] = [
    255, 216, 255, 224, 0, 16, 74, 70, 73, 70, 0, 1, 1, 1, 0, 1,
    0, 1, 0, 0, 255, 219, 0, 67, 0, 3, 2, 2, 2, 2, 2, 3,
    2, 2, 2, 3, 3, 3, 3, 4, 6, 4, 4, 4, 4, 4, 8, 6,
    6, 5, 6, 9, 8, 10, 10, 9, 8, 9, 9, 10, 12, 15, 12, 10,
    11, 14, 11, 9, 9, 13, 17, 13, 14, 15, 16, 16, 17, 16, 10, 12,
    18, 19, 18, 16, 19, 15, 16, 16, 16, 255, 219, 0, 67, 1, 3, 3,
    3, 4, 3, 4, 8, 4, 4, 8, 16, 11, 9, 11, 16, 16, 16, 16,
    16, 16, 16, 16, 16, 16, 16, 16, 16, 16, 16, 16, 16, 16, 16, 16,
    16, 16, 16, 16, 16, 16, 16, 16, 16, 16, 16, 16, 16, 16, 16, 16,
    16, 16, 16, 16, 16, 16, 16, 16, 16, 16, 16, 16, 16, 16, 255, 192,
    0, 17, 8, 0, 16, 0, 16, 3, 1, 34, 0, 2, 17, 1, 3, 17,
    1, 255, 196, 0, 22, 0, 1, 1, 1, 0, 0, 0, 0, 0, 0, 0,
    0, 0, 0, 0, 0, 0, 7, 4, 5, 255, 196, 0, 36, 16, 0, 1,
    4, 1, 4, 2, 2, 3, 0, 0, 0, 0, 0, 0, 0, 0, 1, 2,
    3, 4, 6, 5, 7, 8, 18, 19, 17, 34, 0, 20, 9, 49, 50, 255,
    196, 0, 21, 1, 1, 1, 0, 0, 0, 0, 0, 0, 0, 0, 0, 0,
    0, 0, 0, 0, 0, 6, 255, 196, 0, 35, 17, 0, 1, 2, 5, 3,
    5, 0, 0, 0, 0, 0, 0, 0, 0, 0, 0, 1, 2, 17, 3, 4,
    5, 6, 33, 0, 18, 49, 21, 22, 97, 129, 225, 255, 218, 0, 12, 3,
    1, 0, 2, 17, 3, 17, 0, 63, 0, 20, 166, 210, 106, 27, 115, 193,
    230, 19, 18, 212, 149, 28, 243, 17, 99, 228, 37, 101, 190, 186, 90, 236,
    105, 69, 64, 177, 229, 32, 178, 84, 165, 31, 210, 202, 184, 250, 242, 32,
    171, 150, 61, 151, 108, 147, 53, 230, 155, 119, 215, 230, 109, 167, 23, 129,
    165, 87, 28, 127, 28, 234, 113, 226, 75, 57, 215, 227, 34, 83, 242, 26,
    105, 222, 212, 113, 74, 56, 180, 130, 232, 75, 137, 42, 113, 105, 30, 205,
    45, 33, 59, 241, 239, 185, 26, 116, 172, 238, 161, 90, 117, 142, 213, 72,
    172, 101, 91, 133, 139, 129, 133, 123, 33, 41, 152, 103, 169, 107, 148, 185,
    73, 101, 79, 185, 200, 133, 41, 17, 75, 129, 42, 240, 122, 217, 242, 60,
    128, 126, 85, 190, 13, 246, 98, 161, 64, 204, 232, 230, 154, 61, 92, 183,
    67, 179, 215, 122, 101, 88, 177, 217, 81, 33, 136, 191, 100, 184, 211, 241,
    195, 104, 4, 41, 192, 208, 254, 187, 60, 2, 224, 60, 84, 7, 180, 189,
    217, 123, 84, 230, 39, 251, 110, 223, 148, 96, 20, 130, 98, 19, 141, 184,
    82, 152, 40, 55, 5, 137, 114, 121, 96, 228, 50, 137, 111, 195, 130, 142,
    167, 82, 140, 234, 32, 141, 190, 120, 25, 31, 7, 173, 127, 255, 217,
];

fn png_of(width: u32, height: u32, colour: png::ColorType, data: &[u8]) -> Vec<u8> {
    let mut bytes = Vec::new();
    let mut encoder = png::Encoder::new(&mut bytes, width, height);
    encoder.set_color(colour);
    encoder.set_depth(png::BitDepth::Eight);
    let mut writer = encoder.write_header().unwrap();
    writer.write_image_data(data).unwrap();
    writer.finish().unwrap();
    bytes
}

#[test]
fn an_opaque_png_decodes_to_the_pixels_it_was_encoded_from() {
    let bitmap = Bitmap { width: 2, height: 1, rgba: vec![255, 0, 0, 255, 0, 0, 0, 255] };
    let pixels = decode_png(&encode_png(&bitmap)).unwrap();
    assert_eq!((pixels.width, pixels.height), (2, 1));
    assert_eq!(pixels.rgba, bitmap.rgba);
}

#[test]
fn a_translucent_png_comes_back_premultiplied() {
    let bitmap = Bitmap { width: 1, height: 1, rgba: vec![200, 100, 50, 128] };
    let pixels = decode_png(&encode_png(&bitmap)).unwrap();
    assert_eq!(pixels.rgba, vec![100, 50, 25, 128]);
}

#[test]
fn a_grey_png_is_widened_to_rgba() {
    let bytes = png_of(2, 1, png::ColorType::GrayscaleAlpha, &[10, 255, 200, 0]);
    let pixels = decode_png(&bytes).unwrap();
    assert_eq!((pixels.width, pixels.height), (2, 1));
    assert_eq!(pixels.rgba, vec![10, 10, 10, 255, 0, 0, 0, 0]);
}

#[test]
fn an_rgb_png_gains_an_opaque_alpha() {
    let bytes = png_of(1, 1, png::ColorType::Rgb, &[1, 2, 3]);
    let pixels = decode_png(&bytes).unwrap();
    assert_eq!(pixels.rgba, vec![1, 2, 3, 255]);
}

#[test]
fn bytes_that_are_not_a_png_are_refused() {
    assert!(decode_png(b"not a picture").is_err());
}

#[test]
fn a_jpeg_decodes_to_opaque_rgba() {
    let mut decoder = jpeg_decoder::Decoder::new(std::io::Cursor::new(&PICTURE_JPG[..]));
    let raw = decoder.decode().unwrap();
    let info = decoder.info().unwrap();
    let pixels = decode_jpeg(&PICTURE_JPG).unwrap();
    assert_eq!((pixels.width, pixels.height), (info.width as u32, info.height as u32));
    match info.pixel_format {
        jpeg_decoder::PixelFormat::RGB24 => {
            assert_eq!(pixels.rgba.len(), raw.len() / 3 * 4);
            for (i, p) in raw.chunks_exact(3).enumerate() {
                assert_eq!(&pixels.rgba[4 * i..4 * i + 4], &[p[0], p[1], p[2], 255]);
            }
        }
        jpeg_decoder::PixelFormat::L8 => {
            assert_eq!(pixels.rgba.len(), raw.len() * 4);
            for (i, g) in raw.iter().enumerate() {
                assert_eq!(&pixels.rgba[4 * i..4 * i + 4], &[*g, *g, *g, 255]);
            }
        }
        other => panic!("unexpected test picture format {other:?}"),
    }
}

#[test]
fn bytes_that_are_not_a_jpeg_are_refused() {
    assert!(decode_jpeg(&[0xFF, 0xD8, 0x00]).is_err());
}

#[test]
fn a_png_frame_of_rgba_is_premultiplied() {
    let px = pixels_from_png(2, 1, PngColourType::Rgba, vec![10, 20, 30, 255, 10, 20, 30, 0]).unwrap();
    assert_eq!((px.width, px.height), (2, 1));
    assert_eq!(px.rgba, vec![10, 20, 30, 255, 0, 0, 0, 0]);
}

#[test]
fn a_png_frame_of_grey_and_alpha_is_widened() {
    let px = pixels_from_png(1, 1, PngColourType::GrayscaleAlpha, vec![50, 255]).unwrap();
    assert_eq!((px.width, px.height), (1, 1));
    assert_eq!(px.rgba, vec![50, 50, 50, 255]);
}

#[test]
fn a_png_frame_of_another_layout_is_refused_by_name() {
    assert_eq!(pixels_from_png(1, 1, PngColourType::Rgb, vec![1, 2, 3]).err().unwrap(), "unsupported PNG colour type Rgb");
    assert_eq!(pixels_from_png(1, 1, PngColourType::Indexed, vec![0]).err().unwrap(), "unsupported PNG colour type Indexed");
}

#[test]
fn a_decoded_jpeg_is_widened_to_opaque_rgba() {
    let px = pixels_from_jpeg(vec![1, 2, 3, 4, 5, 6], Some((2, 1, JpegPixelFormat::RGB24))).unwrap();
    assert_eq!((px.width, px.height), (2, 1));
    assert_eq!(px.rgba, vec![1, 2, 3, 255, 4, 5, 6, 255]);
    let px = pixels_from_jpeg(vec![7, 9], Some((1, 2, JpegPixelFormat::L8))).unwrap();
    assert_eq!((px.width, px.height), (1, 2));
    assert_eq!(px.rgba, vec![7, 7, 7, 255, 9, 9, 9, 255]);
}

#[test]
fn a_decoded_jpeg_without_a_usable_layout_is_refused() {
    assert_eq!(pixels_from_jpeg(vec![], None).err().unwrap(), "no JPEG header");
    assert_eq!(pixels_from_jpeg(vec![0, 0], Some((1, 1, JpegPixelFormat::L16))).err().unwrap(), "unsupported JPEG pixel format L16");
    assert_eq!(pixels_from_jpeg(vec![0, 0, 0, 0], Some((1, 1, JpegPixelFormat::CMYK32))).err().unwrap(), "unsupported JPEG pixel format CMYK32");
}
