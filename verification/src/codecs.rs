//! Reading PNG and JPEG pictures into premultiplied pixels, and writing
//! rendered bitmaps as PNG, through the `png` and `jpeg-decoder` crates.

use vstd::prelude::*;
use crate::pixels::{Bitmap, Pixels, premultiplied, premultiplied_byte, grey_alpha_byte, grey_alpha_to_rgba, rgb_byte, rgb_to_rgba, luma_byte, luma_to_rgba};
use crate::text::{append, owned};
use png::{ColorType, Transformations};
use std::io::Cursor;

verus! {

/// The colour layouts a PNG frame can come out in (the `png` crate's
/// `ColorType`).
#[derive(Clone, Copy, Debug, PartialEq, Eq)]
pub enum PngColourType {
    Grayscale,
    Rgb,
    Indexed,
    GrayscaleAlpha,
    Rgba,
}

/// One decoded PNG frame, normalised to 8 bits per channel with an alpha
/// channel, as the `png` crate hands it back.
struct PngFrame {
    width: u32,
    height: u32,
    colour: PngColourType,
    data: Vec<u8>,
}

/// What the `png` crate makes of `bytes` when asked to normalise to 8-bit
/// colour with alpha: width, height, output colour type and pixel bytes, or
/// its error message.
pub uninterp spec fn png_decoding(bytes: Seq<u8>) -> Result<(u32, u32, PngColourType, Seq<u8>), Seq<char>>;

/// Decode the first frame of a PNG with the `png` crate
/// (`Decoder::new`, `set_transformations(normalize_to_color8() | ALPHA)`,
/// `read_info`, `output_buffer_size`, `next_frame`, `OutputInfo::buffer_size`).
/// Claimed: the result is a function of the bytes alone, `png_decoding`; an
/// error carries the crate's message. Nothing is claimed about which bytes
/// decode or what they decode to.
#[verifier::external_body]
fn png_read(bytes: &[u8]) -> (r: Result<PngFrame, String>)
    ensures
        match r {
            Ok(f) => png_decoding(bytes@) == Ok::<_, Seq<char>>((f.width, f.height, f.colour, f.data@)),
            Err(e) => png_decoding(bytes@) == Err::<(u32, u32, PngColourType, Seq<u8>), _>(e@),
        },
{
    let mut decoder = png::Decoder::new(Cursor::new(bytes));
    decoder.set_transformations(Transformations::normalize_to_color8() | Transformations::ALPHA);
    let mut reader = decoder.read_info().map_err(|e| e.to_string())?;
    let mut data = vec![0; reader.output_buffer_size().unwrap_or(0)];
    let info = reader.next_frame(&mut data).map_err(|e| e.to_string())?;
    data.truncate(info.buffer_size());
    let colour = match info.color_type {
        ColorType::Grayscale => PngColourType::Grayscale,
        ColorType::Rgb => PngColourType::Rgb,
        ColorType::Indexed => PngColourType::Indexed,
        ColorType::GrayscaleAlpha => PngColourType::GrayscaleAlpha,
        ColorType::Rgba => PngColourType::Rgba,
    };
    Ok(PngFrame { width: info.width, height: info.height, colour, data })
}

/// How a PNG colour type reads in an error message.
pub open spec fn png_colour_name(c: PngColourType) -> Seq<char> {
    match c {
        PngColourType::Grayscale => "Grayscale"@,
        PngColourType::Rgb => "Rgb"@,
        PngColourType::Indexed => "Indexed"@,
        PngColourType::GrayscaleAlpha => "GrayscaleAlpha"@,
        PngColourType::Rgba => "Rgba"@,
    }
}

fn png_colour_text(c: PngColourType) -> (r: &'static str)
    ensures
        r@ == png_colour_name(c),
{
    match c {
        PngColourType::Grayscale => "Grayscale",
        PngColourType::Rgb => "Rgb",
        PngColourType::Indexed => "Indexed",
        PngColourType::GrayscaleAlpha => "GrayscaleAlpha",
        PngColourType::Rgba => "Rgba",
    }
}

/// `px` holds the picture `w` x `h` whose straight RGBA bytes are `rgba`,
/// premultiplied.
pub open spec fn holds_premultiplied(px: Pixels, w: u32, h: u32, rgba: Seq<u8>) -> bool {
    &&& px.width == w
    &&& px.height == h
    &&& px.rgba.len() == rgba.len()
    &&& forall|k: int| 0 <= k < rgba.len() ==> px.rgba[k] as int == #[trigger] premultiplied_byte(rgba, k)
}

/// The straight RGBA bytes of a grey-plus-alpha buffer.
pub open spec fn grey_alpha_rgba(ga: Seq<u8>) -> Seq<u8> {
    Seq::new((4 * (ga.len() / 2)) as nat, |k: int| grey_alpha_byte(ga, k))
}

/// Why a decoded PNG frame cannot be used: a colour layout that is neither
/// RGBA nor grey-plus-alpha. `None` when it can.
pub open spec fn png_frame_refusal(colour: PngColourType) -> Option<Seq<char>> {
    match colour {
        PngColourType::Rgba => None,
        PngColourType::GrayscaleAlpha => None,
        other => Some("unsupported PNG colour type "@ + png_colour_name(other)),
    }
}

/// `px` is what a usable PNG frame becomes: its RGBA, or its grey-plus-alpha
/// widened to RGBA, premultiplied.
pub open spec fn png_frame_pixels(w: u32, h: u32, colour: PngColourType, data: Seq<u8>, px: Pixels) -> bool {
    match colour {
        PngColourType::Rgba => holds_premultiplied(px, w, h, data),
        PngColourType::GrayscaleAlpha => holds_premultiplied(px, w, h, grey_alpha_rgba(data)),
        _ => false,
    }
}

/// Why a PNG cannot be read: the decoder's own message, or a frame that
/// cannot be used. `None` when it reads.
pub open spec fn png_refusal(bytes: Seq<u8>) -> Option<Seq<char>> {
    match png_decoding(bytes) {
        Err(m) => Some(m),
        Ok((_, _, colour, _)) => png_frame_refusal(colour),
    }
}

/// `px` is what a readable PNG decodes to.
pub open spec fn png_pixels(bytes: Seq<u8>, px: Pixels) -> bool {
    match png_decoding(bytes) {
        Ok((w, h, colour, data)) => png_frame_pixels(w, h, colour, data, px),
        Err(_) => false,
    }
}

/// Premultiplied pixels from a decoded PNG frame, as the `png` crate hands
/// one back: 8-bit RGBA frames as they are, grey-plus-alpha frames widened;
/// any other layout is refused, naming it.
pub fn pixels_from_png(width: u32, height: u32, colour: PngColourType, data: Vec<u8>) -> (r: Result<Pixels, String>)
    ensures
        match png_frame_refusal(colour) {
            Some(m) => r matches Err(e) && e@ == m,
            None => r matches Ok(px) && png_frame_pixels(width, height, colour, data@, px),
        },
{
    match colour {
        PngColourType::Rgba => Ok(premultiplied(width, height, data)),
        PngColourType::GrayscaleAlpha => {
            let rgba = grey_alpha_to_rgba(&data);
            proof {
                assert(rgba@ =~= grey_alpha_rgba(data@));
            }
            Ok(premultiplied(width, height, rgba))
        },
        other => Err(append(owned("unsupported PNG colour type "), png_colour_text(other))),
    }
}

/// Decode a PNG into premultiplied RGBA: the `png` crate reads the frame,
/// and `pixels_from_png` makes pixels of it.
pub fn decode_png(bytes: &[u8]) -> (r: Result<Pixels, String>)
    ensures
        match png_refusal(bytes@) {
            Some(m) => r matches Err(e) && e@ == m,
            None => r matches Ok(px) && png_pixels(bytes@, px),
        },
{
    match png_read(bytes) {
        Ok(frame) => pixels_from_png(frame.width, frame.height, frame.colour, frame.data),
        Err(e) => Err(e),
    }
}

/// The pixel layouts a JPEG can decode to (`jpeg_decoder::PixelFormat`).
#[derive(Clone, Copy, Debug, PartialEq, Eq)]
pub enum JpegPixelFormat {
    L8,
    L16,
    RGB24,
    CMYK32,
}

/// A decoded JPEG: its pixel bytes and, when the header was read, its width,
/// height and pixel layout.
struct JpegFrame {
    data: Vec<u8>,
    info: Option<(u16, u16, JpegPixelFormat)>,
}

/// The header `jpeg-decoder` reports (`Decoder::info`) once `decode` has
/// succeeded on `bytes`: width, height and pixel layout; `None` when
/// `decode` refuses the bytes.
pub uninterp spec fn jpeg_header(bytes: Seq<u8>) -> Option<(u16, u16, JpegPixelFormat)>;

/// Decode a JPEG with `jpeg-decoder` (`Decoder::new`, `decode`, `info`):
/// the decoded pixel bytes and the header, or the crate's error message.
///
/// Claimed: whether decoding succeeds, and on success the header, are a
/// function of the bytes alone, `jpeg_header`; on success the header is
/// there. The decoder's refusals come from parsing the bytes and from fixed
/// limits (the default decoding-buffer limit); with the crate's default
/// `rayon` feature its parallel work goes to a rayon pool, which hands back
/// no error of its own. The decoder keeps a frame only after parsing
/// its frame header (SOF) from the bytes, and `decode` refuses an image that
/// ends without one; width, height and layout are read from that header by
/// plain parsing. The pixel bytes are not claimed to be a function of the
/// bytes: the decoder picks an SSSE3 inverse DCT at run time where the
/// processor has one, and that one rounds differently from the portable
/// path. Nor is their length stated: a lossless picture whose precision is
/// not 8 bits comes out with two bytes per sample.
///
/// Traced in the decoder's source, and found guarded: the `panic!()` calls in
/// `info` (only reached for a component count or precision `decode` refuses
/// before keeping the frame), the Huffman-table `unwrap()` calls (after
/// checks that every table a scan uses is set), the `frame` `unwrap()` calls
/// (after checks that a frame is there), and the colour-conversion
/// `assert`s (the converter is chosen by the same component count). Not
/// traced: the `unwrap` calls and indexing of its workers. So no input is
/// left out for them, and on bytes that reached one of them the call would
/// stop instead of returning.
#[verifier::external_body]
fn jpeg_read(bytes: &[u8]) -> (r: Result<JpegFrame, String>)
    ensures
        match r {
            Ok(f) => f.info is Some && f.info == jpeg_header(bytes@),
            Err(_) => jpeg_header(bytes@) is None,
        },
{
    let mut decoder = jpeg_decoder::Decoder::new(Cursor::new(bytes));
    let data = decoder.decode().map_err(|e| e.to_string())?;
    let info = decoder.info().map(|i| (i.width, i.height, match i.pixel_format {
        jpeg_decoder::PixelFormat::L8 => JpegPixelFormat::L8,
        jpeg_decoder::PixelFormat::L16 => JpegPixelFormat::L16,
        jpeg_decoder::PixelFormat::RGB24 => JpegPixelFormat::RGB24,
        jpeg_decoder::PixelFormat::CMYK32 => JpegPixelFormat::CMYK32,
    }));
    Ok(JpegFrame { data, info })
}

/// The straight RGBA bytes of an RGB buffer.
pub open spec fn rgb_rgba(rgb: Seq<u8>) -> Seq<u8> {
    Seq::new((4 * (rgb.len() / 3)) as nat, |k: int| rgb_byte(rgb, k))
}

/// The straight RGBA bytes of a grey buffer.
pub open spec fn luma_rgba(g: Seq<u8>) -> Seq<u8> {
    Seq::new((4 * g.len()) as nat, |k: int| luma_byte(g, k))
}

/// Why a decoded JPEG cannot be used: a missing header, or a pixel layout
/// that is neither RGB nor 8-bit grey. `None` when it can.
pub open spec fn jpeg_frame_refusal(info: Option<(u16, u16, JpegPixelFormat)>) -> Option<Seq<char>> {
    match info {
        None => Some("no JPEG header"@),
        Some((_, _, JpegPixelFormat::RGB24)) => None,
        Some((_, _, JpegPixelFormat::L8)) => None,
        Some((_, _, JpegPixelFormat::L16)) => Some("unsupported JPEG pixel format L16"@),
        Some((_, _, JpegPixelFormat::CMYK32)) => Some("unsupported JPEG pixel format CMYK32"@),
    }
}

/// `px` is what a usable decoded JPEG becomes: its RGB or grey bytes widened
/// to opaque RGBA.
pub open spec fn jpeg_frame_pixels(data: Seq<u8>, info: Option<(u16, u16, JpegPixelFormat)>, px: Pixels) -> bool {
    match info {
        Some((w, h, JpegPixelFormat::RGB24)) => px.width == w && px.height == h && px.rgba@ == rgb_rgba(data),
        Some((w, h, JpegPixelFormat::L8)) => px.width == w && px.height == h && px.rgba@ == luma_rgba(data),
        _ => false,
    }
}

/// `px` is what a JPEG whose header is `header` becomes, whatever pixel
/// bytes the decoder produced for it on this machine: the header's width and
/// height, and some RGB or grey bytes widened to opaque RGBA.
pub open spec fn jpeg_decoded_as(header: Option<(u16, u16, JpegPixelFormat)>, px: Pixels) -> bool {
    exists|data: Seq<u8>| #[trigger] jpeg_frame_pixels(data, header, px)
}

/// RGBA pixels from what `jpeg-decoder` hands back: the pixel bytes and the
/// header, if one was read. A JPEG has no alpha, so every pixel is opaque
/// and nothing needs premultiplying: RGB and grey pictures are widened, any
/// other layout is refused, naming it.
pub fn pixels_from_jpeg(data: Vec<u8>, info: Option<(u16, u16, JpegPixelFormat)>) -> (r: Result<Pixels, String>)
    ensures
        match jpeg_frame_refusal(info) {
            Some(m) => r matches Err(e) && e@ == m,
            None => r matches Ok(px) && jpeg_frame_pixels(data@, info, px),
        },
{
    let (w, h, format) = match info {
        Some(i) => i,
        None => return Err(owned("no JPEG header")),
    };
    match format {
        JpegPixelFormat::RGB24 => {
            let rgba = rgb_to_rgba(&data);
            proof {
                assert(rgba@ =~= rgb_rgba(data@));
            }
            Ok(Pixels { width: w as u32, height: h as u32, rgba })
        },
        JpegPixelFormat::L8 => {
            let rgba = luma_to_rgba(&data);
            proof {
                assert(rgba@ =~= luma_rgba(data@));
            }
            Ok(Pixels { width: w as u32, height: h as u32, rgba })
        },
        JpegPixelFormat::L16 => Err(owned("unsupported JPEG pixel format L16")),
        JpegPixelFormat::CMYK32 => Err(owned("unsupported JPEG pixel format CMYK32")),
    }
}

/// A decoded JPEG is usable exactly when its header says RGB or 8-bit
/// grey, and then the pixels made of it have the header's width and height,
/// every pixel opaque, whatever pixel bytes the decoder produced.
pub proof fn law_jpeg_pixels_follow_the_header(w: u16, h: u16, format: JpegPixelFormat, px: Pixels)
    ensures
        (jpeg_frame_refusal(Some((w, h, format))) is None) <==> (format == JpegPixelFormat::RGB24 || format
            == JpegPixelFormat::L8),
        jpeg_decoded_as(Some((w, h, format)), px) ==> {
            &&& px.width == w as u32
            &&& px.height == h as u32
            &&& px.rgba.len() % 4 == 0
            &&& forall|k: int| 0 <= k < px.rgba.len() && k % 4 == 3 ==> px.rgba@[k] == 255
        },
{
    if jpeg_decoded_as(Some((w, h, format)), px) {
        let data = choose|data: Seq<u8>| #[trigger] jpeg_frame_pixels(data, Some((w, h, format)), px);
        assert(jpeg_frame_pixels(data, Some((w, h, format)), px));
        if format == JpegPixelFormat::RGB24 {
            assert(px.rgba@ == rgb_rgba(data));
            assert forall|k: int| 0 <= k < px.rgba.len() && k % 4 == 3 implies px.rgba@[k] == 255 by {
                assert(px.rgba@[k] == rgb_byte(data, k));
            }
        } else {
            assert(px.rgba@ == luma_rgba(data));
            assert forall|k: int| 0 <= k < px.rgba.len() && k % 4 == 3 implies px.rgba@[k] == 255 by {
                assert(px.rgba@[k] == luma_byte(data, k));
            }
        }
    }
}

/// Decode a JPEG into RGBA: `jpeg-decoder` reads the picture, and
/// `pixels_from_jpeg` makes pixels of it. The size and layout come from the
/// JPEG's header: pixels that come back have the header's width and height.
/// Bytes the decoder reads with an RGB or 8-bit grey header always decode;
/// with another layout they are refused, naming it. What the pixel values
/// are can differ from machine to machine, so they are only said to widen
/// the decoder's output. Some malformed bytes may stop the program inside
/// the decoder; see `jpeg_read`.
pub fn decode_jpeg(bytes: &[u8]) -> (r: Result<Pixels, String>)
    ensures
        r matches Ok(px) ==> jpeg_frame_refusal(jpeg_header(bytes@)) is None
            && jpeg_decoded_as(jpeg_header(bytes@), px),
        jpeg_frame_refusal(jpeg_header(bytes@)) is Some ==> r is Err,
        jpeg_header(bytes@) is Some ==> match jpeg_frame_refusal(jpeg_header(bytes@)) {
            None => r is Ok,
            Some(m) => r matches Err(e) && e@ == m,
        },
{
    match jpeg_read(bytes) {
        Ok(frame) => {
            let ghost data = frame.data@;
            let ghost info = frame.info;
            let r = pixels_from_jpeg(frame.data, frame.info);
            proof {
                if r is Ok {
                    assert(jpeg_frame_pixels(data, info, r->Ok_0));
                }
            }
            r
        },
        Err(e) => Err(e),
    }
}

/// The PNG file the `png` crate writes for an 8-bit RGBA image of the given
/// size and pixels, with its default settings.
pub uninterp spec fn png_encoding(width: u32, height: u32, rgba: Seq<u8>) -> Seq<u8>;

/// Encode 8-bit RGBA pixels as a PNG with the `png` crate (`Encoder::new`,
/// `set_color(Rgba)`, `set_depth(Eight)`, `write_header`,
/// `write_image_data`, `finish`). The crate refuses a zero width or height
/// and a buffer whose length is not `width * height * 4`, so those are
/// required. Claimed: the bytes are a function of the arguments alone,
/// `png_encoding`. Nothing is claimed about their contents.
#[verifier::external_body]
fn png_write_rgba8(width: u32, height: u32, rgba: &[u8]) -> (r: Vec<u8>)
    requires
        width > 0,
        height > 0,
        rgba.len() == width as int * height as int * 4,
    ensures
        r@ == png_encoding(width, height, rgba@),
{
    let mut bytes = Vec::new();
    let mut encoder = png::Encoder::new(&mut bytes, width, height);
    encoder.set_color(ColorType::Rgba);
    encoder.set_depth(png::BitDepth::Eight);
    let mut writer = encoder.write_header().expect("valid PNG header");
    writer.write_image_data(rgba).expect("rgba matches width*height*4");
    writer.finish().expect("flush PNG");
    bytes
}

/// Encode a bitmap to PNG bytes, in memory. The bitmap must be at least one
/// pixel each way and its buffer exactly `width * height * 4` bytes.
pub fn encode_png(bitmap: &Bitmap) -> (r: Vec<u8>)
    requires
        bitmap.width > 0,
        bitmap.height > 0,
        bitmap.rgba.len() == bitmap.width as int * bitmap.height as int * 4,
    ensures
        r@ == png_encoding(bitmap.width, bitmap.height, bitmap.rgba@),
{
    png_write_rgba8(bitmap.width, bitmap.height, bitmap.rgba.as_slice())
}

} // verus!
