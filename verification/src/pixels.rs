//! Pixel buffers: decoded pictures, rendered frames, and the byte-level
//! conversions between their layouts.

use vstd::prelude::*;

verus! {

/// A decoded picture: premultiplied RGBA8, row-major, four bytes per pixel.
pub struct Pixels {
    pub width: u32,
    pub height: u32,
    pub rgba: Vec<u8>,
}

/// One colour channel of a straight-alpha pixel, premultiplied by its alpha
/// and rounded to the nearest byte.
pub open spec fn premultiply_channel(c: u8, a: u8) -> int {
    (c as int * a as int + 127) / 255
}

/// The byte at index `k` of a straight RGBA buffer once every whole pixel has
/// been premultiplied. Opaque pixels, alpha bytes and a trailing partial
/// pixel are left as they are.
pub open spec fn premultiplied_byte(rgba: Seq<u8>, k: int) -> int {
    let base = k - k % 4;
    let a = rgba[base + 3];
    if base + 4 <= rgba.len() && k % 4 != 3 && a != 255 {
        premultiply_channel(rgba[k], a)
    } else {
        rgba[k] as int
    }
}

proof fn lemma_premultiply_fits(c: u8, a: u8)
    ensures
        0 <= premultiply_channel(c, a) <= a,
        c as int * a as int <= 65025,
{
    assert(c as int * a as int <= 255 * a as int) by (nonlinear_arith)
        requires c <= 255, 0 <= a;
    assert(0 <= c as int * a as int) by (nonlinear_arith)
        requires 0 <= c, 0 <= a;
    assert(255 * a as int <= 65025);
}

/// Straight RGBA to premultiplied, which is what the rasterizer blits: each
/// colour channel of a pixel that is not fully opaque is scaled by its alpha,
/// rounding to nearest.
#[verifier::spinoff_prover]
pub fn premultiplied(width: u32, height: u32, rgba: Vec<u8>) -> (out: Pixels)
    ensures
        out.width == width,
        out.height == height,
        out.rgba.len() == rgba.len(),
        forall|k: int| 0 <= k < rgba.len() ==> out.rgba[k] as int == #[trigger] premultiplied_byte(rgba@, k),
{
    let ghost orig = rgba@;
    let mut rgba = rgba;
    let n = rgba.len() / 4;
    let mut px: usize = 0;
    while px < n
        invariant
            n == orig.len() / 4,
            rgba.len() == orig.len(),
            px <= n,
            forall|k: int| 0 <= k < 4 * px ==> rgba@[k] as int == #[trigger] premultiplied_byte(orig, k),
            forall|k: int| 4 * px <= k < orig.len() ==> rgba@[k] == orig[k],
        decreases n - px,
    {
        let base = 4 * px;
        let a = rgba[base + 3];
        if a != 255 {
            let mut c: usize = 0;
            while c < 3
                invariant
                    n == orig.len() / 4,
                    rgba.len() == orig.len(),
                    px < n,
                    base == 4 * px,
                    a == orig[base + 3],
                    a != 255,
                    c <= 3,
                    forall|k: int| 0 <= k < 4 * px ==> rgba@[k] as int == #[trigger] premultiplied_byte(orig, k),
                    forall|k: int| base <= k < base + c ==> rgba@[k] as int == #[trigger] premultiplied_byte(orig, k),
                    forall|k: int| base + c <= k < orig.len() ==> rgba@[k] == orig[k],
                decreases 3 - c,
            {
                let v = rgba[base + c];
                proof {
                    lemma_premultiply_fits(v, a);
                    let k = (base + c) as int;
                    assert(k % 4 == c as int);
                    assert(k - k % 4 == base as int);
                }
                let m = ((v as u32 * a as u32 + 127) / 255) as u8;
                rgba.set(base + c, m);
                c += 1;
            }
        }
        proof {
            assert forall|k: int| 0 <= k < 4 * (px + 1) implies rgba@[k] as int == #[trigger] premultiplied_byte(orig, k) by {
                if k >= 4 * px {
                    assert(k - k % 4 == 4 * px);
                }
            }
        }
        px += 1;
    }
    proof {
        assert forall|k: int| 0 <= k < orig.len() implies rgba@[k] as int == #[trigger] premultiplied_byte(orig, k) by {
            if k >= 4 * n {
                assert(k - k % 4 + 4 > orig.len());
            }
        }
    }
    Pixels { width, height, rgba }
}


/// Premultiplied pixels are valid: every byte still fits a byte, no colour
/// channel of a whole pixel exceeds that pixel's alpha, and opaque pixels and
/// alpha bytes come through unchanged.
pub proof fn law_premultiplied_is_valid(rgba: Seq<u8>, k: int)
    requires
        0 <= k < rgba.len(),
    ensures
        0 <= premultiplied_byte(rgba, k) <= 255,
        k - k % 4 + 4 <= rgba.len() && k % 4 != 3 ==> premultiplied_byte(rgba, k) <= rgba[k - k % 4 + 3],
        k % 4 == 3 || rgba[k - k % 4 + 3] == 255 ==> premultiplied_byte(rgba, k) == rgba[k],
{
    let base = k - k % 4;
    if base + 4 <= rgba.len() {
        lemma_premultiply_fits(rgba[k], rgba[base + 3]);
    }
}

/// The RGBA byte at index `k` when each grey-plus-alpha pair becomes a pixel
/// whose three colour channels repeat the grey.
pub open spec fn grey_alpha_byte(ga: Seq<u8>, k: int) -> u8 {
    if k % 4 == 3 {
        ga[2 * (k / 4) + 1]
    } else {
        ga[2 * (k / 4)]
    }
}

/// The RGBA byte at index `k` when each RGB triple becomes an opaque pixel.
pub open spec fn rgb_byte(rgb: Seq<u8>, k: int) -> u8 {
    if k % 4 == 3 {
        255
    } else {
        rgb[3 * (k / 4) + k % 4]
    }
}

/// The RGBA byte at index `k` when each grey byte becomes an opaque pixel.
pub open spec fn luma_byte(g: Seq<u8>, k: int) -> u8 {
    if k % 4 == 3 {
        255
    } else {
        g[k / 4]
    }
}

/// Grey-plus-alpha pairs widened to RGBA; a trailing odd byte is dropped.
pub fn grey_alpha_to_rgba(ga: &Vec<u8>) -> (out: Vec<u8>)
    ensures
        out.len() == 4 * (ga.len() / 2),
        forall|k: int| 0 <= k < out.len() ==> out[k] == #[trigger] grey_alpha_byte(ga@, k),
{
    let n = ga.len() / 2;
    let mut out: Vec<u8> = Vec::new();
    let mut i: usize = 0;
    while i < n
        invariant
            n == ga.len() / 2,
            i <= n,
            out.len() == 4 * i,
            forall|k: int| 0 <= k < out.len() ==> out[k] == #[trigger] grey_alpha_byte(ga@, k),
        decreases n - i,
    {
        let g = ga[2 * i];
        let a = ga[2 * i + 1];
        out.push(g);
        out.push(g);
        out.push(g);
        out.push(a);
        proof {
            assert forall|k: int| 0 <= k < out.len() implies out[k] == #[trigger] grey_alpha_byte(ga@, k) by {
                if k >= 4 * i {
                    assert(k / 4 == i as int);
                }
            }
        }
        i += 1;
    }
    out
}

/// RGB triples widened to opaque RGBA; trailing bytes short of a triple are
/// dropped.
pub fn rgb_to_rgba(rgb: &Vec<u8>) -> (out: Vec<u8>)
    ensures
        out.len() == 4 * (rgb.len() / 3),
        forall|k: int| 0 <= k < out.len() ==> out[k] == #[trigger] rgb_byte(rgb@, k),
{
    let n = rgb.len() / 3;
    let mut out: Vec<u8> = Vec::new();
    let mut i: usize = 0;
    while i < n
        invariant
            n == rgb.len() / 3,
            i <= n,
            out.len() == 4 * i,
            forall|k: int| 0 <= k < out.len() ==> out[k] == #[trigger] rgb_byte(rgb@, k),
        decreases n - i,
    {
        out.push(rgb[3 * i]);
        out.push(rgb[3 * i + 1]);
        out.push(rgb[3 * i + 2]);
        out.push(255);
        proof {
            assert forall|k: int| 0 <= k < out.len() implies out[k] == #[trigger] rgb_byte(rgb@, k) by {
                if k >= 4 * i {
                    assert(k / 4 == i as int);
                }
            }
        }
        i += 1;
    }
    out
}

/// Grey bytes widened to opaque RGBA.
pub fn luma_to_rgba(g: &Vec<u8>) -> (out: Vec<u8>)
    ensures
        out.len() == 4 * g.len(),
        forall|k: int| 0 <= k < out.len() ==> out[k] == #[trigger] luma_byte(g@, k),
{
    let mut out: Vec<u8> = Vec::new();
    let mut i: usize = 0;
    while i < g.len()
        invariant
            i <= g.len(),
            out.len() == 4 * i,
            forall|k: int| 0 <= k < out.len() ==> out[k] == #[trigger] luma_byte(g@, k),
        decreases g.len() - i,
    {
        let v = g[i];
        out.push(v);
        out.push(v);
        out.push(v);
        out.push(255);
        proof {
            assert forall|k: int| 0 <= k < out.len() implies out[k] == #[trigger] luma_byte(g@, k) by {
                if k >= 4 * i {
                    assert(k / 4 == i as int);
                }
            }
        }
        i += 1;
    }
    out
}

/// One channel after a glyph's coverage is laid over it: the fill channel
/// scaled by the coverage, over what was there scaled by what the coverage
/// leaves, rounded, and capped at a byte.
pub open spec fn covered_channel(dst: u8, src: int, src_a: int) -> int {
    let v = src + (dst * (255 - src_a) + 128) / 255;
    if v > 255 { 255 } else { v }
}

/// A fill channel scaled by a coverage byte.
pub open spec fn scaled_fill(fill: u32, cov: u32) -> int {
    fill * cov / 255
}

/// Lay glyph coverage `cov` in colour `fill` over pixel `(px, py)` of a
/// premultiplied RGBA8 buffer `w` pixels wide and `h` high, source over
/// destination. A pixel outside the buffer and zero coverage change nothing.
/// For a pixel that is drawn, its byte offset and each fill channel scaled by
/// the coverage must fit a `u32`, and the scaled alpha must fit a byte: the
/// `u32` arithmetic overflows otherwise.
pub fn blend_coverage(data: &mut Vec<u8>, w: u32, h: u32, px: i32, py: i32, fill: (u32, u32, u32, u32), cov: u32)
    requires
        old(data).len() == w as int * h as int * 4,
        (0 <= px < w && 0 <= py < h && cov != 0) ==> {
            &&& (py * w + px) * 4 <= u32::MAX
            &&& fill.0 * cov <= u32::MAX
            &&& fill.1 * cov <= u32::MAX
            &&& fill.2 * cov <= u32::MAX
            &&& fill.3 * cov <= u32::MAX
            &&& scaled_fill(fill.3, cov) <= 255
        },
    ensures
        final(data).len() == old(data).len(),
        ({
            let inside = 0 <= px < w && 0 <= py < h && cov != 0;
            let base = (py * w + px) * 4;
            let sa = scaled_fill(fill.3, cov);
            forall|k: int| 0 <= k < old(data).len() ==> #[trigger] final(data)@[k] as int == if inside && base <= k < base + 4 {
                covered_channel(
                    old(data)@[k],
                    if k == base { scaled_fill(fill.0, cov) } else if k == base + 1 { scaled_fill(fill.1, cov) }
                        else if k == base + 2 { scaled_fill(fill.2, cov) } else { sa },
                    sa,
                )
            } else {
                old(data)@[k] as int
            }
        }),
{
    if px < 0 || py < 0 || cov == 0 {
        return;
    }
    let (x, y) = (px as u32, py as u32);
    if x >= w || y >= h {
        return;
    }
    proof {
        assert(y as int * w as int + x as int <= (h as int - 1) * w as int + w as int - 1) by (nonlinear_arith)
            requires y < h, x < w;
        assert((h as int - 1) * w as int + w as int == w as int * h as int) by (nonlinear_arith);
        assert(0 <= y as int * w as int) by (nonlinear_arith);
        assert(fill.0 * cov / 255 <= 16843009);
        assert(fill.1 * cov / 255 <= 16843009);
        assert(fill.2 * cov / 255 <= 16843009);
    }
    let i = ((y * w + x) * 4) as usize;
    let src_a = (fill.3 * cov) / 255;
    let src = [(fill.0 * cov) / 255, (fill.1 * cov) / 255, (fill.2 * cov) / 255, src_a];
    let inv_a = 255 - src_a;
    let ghost before = data@;
    let mut c: usize = 0;
    while c < 4
        invariant
            data.len() == before.len(),
            i as int == (py * w + px) * 4,
            i + 4 <= data.len(),
            src_a == scaled_fill(fill.3, cov),
            src_a <= 255,
            inv_a == 255 - src_a,
            src@ == seq![scaled_fill(fill.0, cov) as u32, scaled_fill(fill.1, cov) as u32, scaled_fill(fill.2, cov) as u32, src_a],
            src[0] <= 16843009, src[1] <= 16843009, src[2] <= 16843009,
            c <= 4,
            forall|k: int| 0 <= k < before.len() && !(i <= k < i + c) ==> #[trigger] data@[k] == before[k],
            forall|k: int| i <= k < i + c ==> #[trigger] data@[k] as int == covered_channel(before[k], src@[k - i] as int, src_a as int),
        decreases 4 - c,
    {
        let d = data[i + c] as u32;
        proof {
            assert(d * inv_a <= 255 * 255) by (nonlinear_arith) requires d <= 255, inv_a <= 255;
        }
        let v = src[c] + (d * inv_a + 128) / 255;
        let b: u8 = if v > 255 { 255 } else { v as u8 };
        data.set(i + c, b);
        c += 1;
    }
}

/// Opaque ink at full coverage replaces the pixel with the ink, whatever was
/// there before.
pub proof fn law_full_coverage_replaces(dst: u8, ink: u32)
    requires
        ink <= 255,
    ensures
        covered_channel(dst, scaled_fill(ink, 255), scaled_fill(255, 255)) == ink,
{
    assert(ink * 255 / 255 == ink) by (nonlinear_arith);
    assert(scaled_fill(255, 255) == 255) by (nonlinear_arith);
    assert(dst * (255 - 255) == 0) by (nonlinear_arith);
    assert((dst * (255 - 255) + 128) / 255 == 0);
}

/// A finished image in memory: straight RGBA8, four bytes per pixel,
/// row-major, top-left origin.
#[derive(Clone, Debug, PartialEq, Eq)]
pub struct Bitmap {
    pub width: u32,
    pub height: u32,
    pub rgba: Vec<u8>,
}

/// Where pixel `(x, y)` starts in a bitmap's byte buffer.
pub open spec fn pixel_offset(width: u32, x: u32, y: u32) -> int {
    (y as int * width as int + x as int) * 4
}

impl Bitmap {
    /// The `(r, g, b, a)` bytes at a pixel. The pixel must lie inside the
    /// image and its buffer, and its byte offset must fit a `u32`.
    pub fn pixel(&self, x: u32, y: u32) -> (p: (u8, u8, u8, u8))
        requires
            x < self.width,
            y < self.height,
            pixel_offset(self.width, x, y) <= u32::MAX,
            pixel_offset(self.width, x, y) + 4 <= self.rgba.len(),
        ensures
            p == (
                self.rgba[pixel_offset(self.width, x, y)],
                self.rgba[pixel_offset(self.width, x, y) + 1],
                self.rgba[pixel_offset(self.width, x, y) + 2],
                self.rgba[pixel_offset(self.width, x, y) + 3],
            ),
    {
        proof {
            assert(0 <= y as int * self.width as int) by (nonlinear_arith)
                requires 0 <= y, 0 <= self.width;
        }
        let i = ((y * self.width + x) * 4) as usize;
        (self.rgba[i], self.rgba[i + 1], self.rgba[i + 2], self.rgba[i + 3])
    }
}

/// A window-system pixel: alpha in the top byte, then red, green and blue.
pub open spec fn argb(r: u8, g: u8, b: u8, a: u8) -> int {
    a as int * 16777216 + r as int * 65536 + g as int * 256 + b as int
}

proof fn lemma_pack_argb(r: u8, g: u8, b: u8, a: u8)
    ensures
        (((a as u32) << 24u32) | ((r as u32) << 16u32) | ((g as u32) << 8u32) | (b as u32)) as int
            == argb(r, g, b, a),
{
    assert((((a as u32) << 24u32) | ((r as u32) << 16u32) | ((g as u32) << 8u32) | (b as u32))
        == (a as u32) * 16777216u32 + (r as u32) * 65536u32 + (g as u32) * 256u32 + (b as u32)) by (bit_vector);
}

/// Copy a rendered bitmap into a window buffer of packed `0xAARRGGBB` pixels,
/// as many whole pixels as both sides hold; the rest of `out` is untouched.
pub fn render_into(bitmap: &Bitmap, out: &mut Vec<u32>)
    ensures
        final(out).len() == old(out).len(),
        forall|i: int|
            0 <= i < final(out).len() ==> #[trigger] final(out)[i] as int == if i < bitmap.rgba.len() / 4 {
                argb(bitmap.rgba[4 * i], bitmap.rgba[4 * i + 1], bitmap.rgba[4 * i + 2], bitmap.rgba[4 * i + 3])
            } else {
                old(out)[i] as int
            },
{
    let whole = bitmap.rgba.len() / 4;
    let n = if out.len() < whole { out.len() } else { whole };
    let mut i: usize = 0;
    while i < n
        invariant
            n <= out.len(),
            n <= whole,
            whole == bitmap.rgba.len() / 4,
            out.len() == old(out).len(),
            i <= n,
            forall|j: int| 0 <= j < i ==> #[trigger] out[j] as int == argb(bitmap.rgba[4 * j], bitmap.rgba[4 * j + 1], bitmap.rgba[4 * j + 2], bitmap.rgba[4 * j + 3]),
            forall|j: int| i <= j < out.len() ==> #[trigger] out[j] == old(out)[j],
        decreases n - i,
    {
        let r = bitmap.rgba[4 * i];
        let g = bitmap.rgba[4 * i + 1];
        let b = bitmap.rgba[4 * i + 2];
        let a = bitmap.rgba[4 * i + 3];
        proof {
            lemma_pack_argb(r, g, b, a);
        }
        out.set(i, ((a as u32) << 24u32) | ((r as u32) << 16u32) | ((g as u32) << 8u32) | (b as u32));
        i += 1;
    }
}

/// The renderer that draws on the CPU, holding the last frame it produced.
pub struct RasterRenderer {
    last: Option<Bitmap>,
}

impl RasterRenderer {
    /// A renderer that has not drawn anything yet.
    pub fn new() -> (r: Self)
        ensures
            r.last_frame() is None,
    {
        RasterRenderer { last: None }
    }

    /// The frame most recently kept.
    pub closed spec fn last_frame(&self) -> Option<Bitmap> {
        self.last
    }

    /// The last rendered bitmap, if any frame has been rendered.
    pub fn last(&self) -> (r: Option<&Bitmap>)
        ensures
            match r {
                Some(b) => self.last_frame() == Some(*b),
                None => self.last_frame() is None,
            },
    {
        self.last.as_ref()
    }

    /// The renderer once it has kept `bitmap` as its frame.
    pub closed spec fn kept(self, bitmap: Bitmap) -> RasterRenderer {
        RasterRenderer { last: Some(bitmap) }
    }

    /// The renderer once it has kept each of `frames` in turn.
    pub closed spec fn after_frames(self, frames: Seq<Bitmap>) -> RasterRenderer
        decreases frames.len(),
    {
        if frames.len() == 0 {
            self
        } else {
            self.after_frames(frames.drop_last()).kept(frames.last())
        }
    }

    /// Keep `bitmap` as the frame just rendered, replacing any earlier one.
    pub fn keep_frame(&mut self, bitmap: Bitmap)
        ensures
            *final(self) == old(self).kept(bitmap),
            final(self).last_frame() == Some(bitmap),
    {
        self.last = Some(bitmap);
    }
}

/// A renderer hands back the frame it kept last: after any run of frames it
/// holds the most recent one, earlier ones replaced, and one that has kept
/// none still holds what it held before (nothing, when it is new).
pub proof fn law_last_frame_is_most_recent(r: RasterRenderer, frames: Seq<Bitmap>)
    ensures
        r.after_frames(frames).last_frame() == (if frames.len() == 0 {
            r.last_frame()
        } else {
            Some(frames.last())
        }),
{
}

impl Default for RasterRenderer {
    fn default() -> (r: Self)
        ensures
            r.last_frame() is None,
    {
        RasterRenderer::new()
    }
}

} // verus!
