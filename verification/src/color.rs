//! YCbCr to RGB conversion (ITU-R BT.601 as used by JFIF), in
//! fixed-point integer arithmetic scaled by 65536, rounded to the
//! nearest integer and clamped to a byte.

use vstd::prelude::*;

use crate::idct::clamp255;
use crate::idct::rdiv;
use crate::idct::rdiv_exec;

verus! {

/// The red channel: `Y + 1.402 * (Cr - 128)`, with 1.402 held as
/// 91881 / 65536.
pub open spec fn rgb_r(y: int, cr: int) -> int {
    clamp255(rdiv(65536 * y + 91881 * (cr - 128), 65536))
}

/// The green channel: `Y - 0.34414 * (Cb - 128) - 0.71414 * (Cr - 128)`,
/// with the factors held as 22554 / 65536 and 46802 / 65536.
pub open spec fn rgb_g(y: int, cb: int, cr: int) -> int {
    clamp255(rdiv(65536 * y - 22554 * (cb - 128) - 46802 * (cr - 128), 65536))
}

/// The blue channel: `Y + 1.772 * (Cb - 128)`, with 1.772 held as
/// 116130 / 65536.
pub open spec fn rgb_b(y: int, cb: int) -> int {
    clamp255(rdiv(65536 * y + 116130 * (cb - 128), 65536))
}

/// Clamp a wide integer into the byte range.
pub fn tr255(i: i64) -> (r: i64)
    ensures
        r == clamp255(i as int),
        0 <= r <= 255,
{
    if i < 0 {
        0
    } else if i > 255 {
        255
    } else {
        i
    }
}

/// Convert one YCbCr sample triple to RGB.
pub fn ycbcr_to_rgb(y: u8, cb: u8, cr: u8) -> (rgb: (u8, u8, u8))
    ensures
        rgb.0 == rgb_r(y as int, cr as int),
        rgb.1 == rgb_g(y as int, cb as int, cr as int),
        rgb.2 == rgb_b(y as int, cb as int),
{
    let yw = (y as i64) * 65536;
    let cbd = cb as i64 - 128;
    let crd = cr as i64 - 128;
    let r = tr255(rdiv_exec(yw + 91881 * crd, 65536));
    let g = tr255(rdiv_exec(yw - 22554 * cbd - 46802 * crd, 65536));
    let b = tr255(rdiv_exec(yw + 116130 * cbd, 65536));
    (r as u8, g as u8, b as u8)
}

} // verus!
