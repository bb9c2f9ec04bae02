//! Configuration helpers: defaults and output-dimension resolution.

use vstd::prelude::*;

verus! {

/// Default animation frame rate.
pub fn default_fps() -> (fps: u32)
    ensures
        fps == 30,
{
    30
}

/// `a * b / c`, rounded to the nearest integer (half up) and saturated at
/// `u32::MAX`.
pub open spec fn scaled(a: int, b: int, c: int) -> int {
    let q = (2 * a * b + c) / (2 * c);
    if q > u32::MAX {
        u32::MAX as int
    } else {
        q
    }
}

/// The requested output size before rounding to even: explicit values win,
/// and a missing dimension preserves the source's aspect ratio.
pub open spec fn resolved_raw(
    orig_w: int,
    orig_h: int,
    w: Option<u32>,
    h: Option<u32>,
) -> (int, int) {
    match (w, h) {
        (Some(tw), Some(th)) => (tw as int, th as int),
        (Some(tw), None) => (tw as int, scaled(orig_h, tw as int, orig_w)),
        (None, Some(th)) => (scaled(orig_w, th as int, orig_h), th as int),
        (None, None) => (orig_w, orig_h),
    }
}

fn scale_round(a: u32, b: u32, c: u32) -> (r: u32)
    requires
        c > 0,
    ensures
        r as int == scaled(a as int, b as int, c as int),
{
    proof {
        assert(2 * (a as int) * (b as int) + (c as int) < 0x40000000000000000) by (nonlinear_arith)
            requires
                0 <= a as int <= 0xffff_ffff,
                0 <= b as int <= 0xffff_ffff,
                0 < c as int <= 0xffff_ffff,
        ;
    }
    let num: u128 = 2u128 * (a as u128) * (b as u128) + (c as u128);
    let den: u128 = 2u128 * (c as u128);
    let q: u128 = num / den;
    if q > u32::MAX as u128 {
        u32::MAX
    } else {
        q as u32
    }
}

/// Resolve target output dimensions from the source image size, the spec
/// file's request and the command line's request. The command line wins
/// over the spec file; a single given dimension scales the other to keep
/// the aspect ratio; both dimensions are rounded down to even, as video
/// encoders require.
pub fn resolve_dimensions(
    orig_w: u32,
    orig_h: u32,
    spec_w: Option<u32>,
    spec_h: Option<u32>,
    cli_w: Option<u32>,
    cli_h: Option<u32>,
) -> (r: (u32, u32))
    requires
        orig_w > 0,
        orig_h > 0,
    ensures
        ({
            let w = if cli_w is Some {
                cli_w
            } else {
                spec_w
            };
            let h = if cli_h is Some {
                cli_h
            } else {
                spec_h
            };
            let raw = resolved_raw(orig_w as int, orig_h as int, w, h);
            &&& r.0 as int == 2 * (raw.0 / 2)
            &&& r.1 as int == 2 * (raw.1 / 2)
        }),
{
    let w = match cli_w {
        Some(v) => Some(v),
        None => spec_w,
    };
    let h = match cli_h {
        Some(v) => Some(v),
        None => spec_h,
    };
    let (rw, rh): (u32, u32) = match (w, h) {
        (Some(tw), Some(th)) => (tw, th),
        (Some(tw), None) => {
            let th = scale_round(orig_h, tw, orig_w);
            (tw, th)
        },
        (None, Some(th)) => {
            let tw = scale_round(orig_w, th, orig_h);
            (tw, th)
        },
        (None, None) => (orig_w, orig_h),
    };
    ((rw / 2) * 2, (rh / 2) * 2)
}

} // verus!
