//! Video export decisions: frame sizes the encoder accepts, and the filter
//! that letterboxes a rendered frame into the output size.

use vstd::prelude::*;
use crate::text::{append, decimal, decimal_string, owned};

verus! {

/// The size a dimension takes in the encoded video: video encoders want even
/// sizes, so an odd one grows by a pixel.
pub open spec fn even_size(d: u32) -> int {
    if d % 2 == 1 { d + 1 } else { d as int }
}

/// Round a whole-pixel dimension up to the next even number. `u32::MAX` is
/// odd and has no even successor in range, so it is left out.
pub fn even_up(d: u32) -> (r: u32)
    requires
        d < u32::MAX,
    ensures
        r == even_size(d),
        r % 2 == 0,
        d <= r <= d + 1,
{
    if d % 2 == 1 {
        d + 1
    } else {
        d
    }
}

/// The ffmpeg filter text that scales a frame to `scaled_w` x `scaled_h` and
/// pads it with black to `out_w` x `out_h`, centred.
pub open spec fn pad_filter_text(scaled_w: u32, scaled_h: u32, out_w: u32, out_h: u32) -> Seq<char> {
    "scale="@ + decimal(scaled_w as nat) + ":"@ + decimal(scaled_h as nat) + ":flags=lanczos,pad="@
        + decimal(out_w as nat) + ":"@ + decimal(out_h as nat) + ":"@
        + decimal(((out_w - scaled_w) / 2) as nat) + ":"@ + decimal(((out_h - scaled_h) / 2) as nat)
        + ":color=black"@
}

/// The scale-and-pad filter for a frame already scaled to fit the output:
/// the scaled size must not exceed the output size.
pub fn pad_filter(scaled_w: u32, scaled_h: u32, out_w: u32, out_h: u32) -> (r: String)
    requires
        scaled_w <= out_w,
        scaled_h <= out_h,
    ensures
        r@ == pad_filter_text(scaled_w, scaled_h, out_w, out_h),
{
    let pad_x = (out_w - scaled_w) / 2;
    let pad_y = (out_h - scaled_h) / 2;
    let m = append(owned("scale="), decimal_string(scaled_w as usize).as_str());
    let m = append(m, ":");
    let m = append(m, decimal_string(scaled_h as usize).as_str());
    let m = append(m, ":flags=lanczos,pad=");
    let m = append(m, decimal_string(out_w as usize).as_str());
    let m = append(m, ":");
    let m = append(m, decimal_string(out_h as usize).as_str());
    let m = append(m, ":");
    let m = append(m, decimal_string(pad_x as usize).as_str());
    let m = append(m, ":");
    let m = append(m, decimal_string(pad_y as usize).as_str());
    append(m, ":color=black")
}

/// A scale-and-pad filter text with the pad's left and top offsets given.
pub open spec fn pad_with_offsets(scaled_w: u32, scaled_h: u32, out_w: u32, out_h: u32, left: nat, top: nat) -> Seq<
    char,
> {
    "scale="@ + decimal(scaled_w as nat) + ":"@ + decimal(scaled_h as nat) + ":flags=lanczos,pad="@ + decimal(
        out_w as nat,
    ) + ":"@ + decimal(out_h as nat) + ":"@ + decimal(left) + ":"@ + decimal(top) + ":color=black"@
}

/// The filter centres the frame: its text is the scale to the frame's size
/// and the pad to the output size at a left and a top offset, each half the
/// slack on its axis, rounded down. So the padding before and after differ by
/// at most a pixel, and with even sizes the padding above, the frame and the
/// padding below make up exactly the output height (and likewise across).
pub proof fn law_padding_is_centred(scaled_w: u32, scaled_h: u32, out_w: u32, out_h: u32)
    requires
        scaled_w <= out_w,
        scaled_h <= out_h,
    ensures
        exists|left: nat, top: nat|
            {
                &&& pad_filter_text(scaled_w, scaled_h, out_w, out_h) == #[trigger] pad_with_offsets(
                    scaled_w,
                    scaled_h,
                    out_w,
                    out_h,
                    left,
                    top,
                )
                &&& 2 * left <= out_w - scaled_w <= 2 * left + 1
                &&& 2 * top <= out_h - scaled_h <= 2 * top + 1
                &&& (scaled_w % 2 == out_w % 2 ==> left + scaled_w + left == out_w)
                &&& (scaled_h % 2 == out_h % 2 ==> top + scaled_h + top == out_h)
            },
{
    let left = ((out_w - scaled_w) / 2) as nat;
    let top = ((out_h - scaled_h) / 2) as nat;
    assert(pad_filter_text(scaled_w, scaled_h, out_w, out_h) == pad_with_offsets(scaled_w, scaled_h, out_w, out_h, left, top));
    assert(2 * left <= out_w - scaled_w <= 2 * left + 1);
    assert(2 * top <= out_h - scaled_h <= 2 * top + 1);
}

} // verus!
