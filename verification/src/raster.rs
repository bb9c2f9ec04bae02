//! Byte-raster helpers: pixel-format conversion and site markers.

use vstd::prelude::*;

verus! {

/// Drop the alpha channel of a packed RGBA raster, keeping each pixel's
/// RGB samples in order.
pub fn rgba_to_rgb(rgba: &Vec<u8>) -> (rgb: Vec<u8>)
    ensures
        rgb@.len() == 3 * (rgba@.len() / 4),
        forall|p: int| 0 <= p < rgba@.len() / 4 ==> {
            &&& #[trigger] rgb@[3 * p] == rgba@[4 * p]
            &&& rgb@[3 * p + 1] == rgba@[4 * p + 1]
            &&& rgb@[3 * p + 2] == rgba@[4 * p + 2]
        },
{
    let n: usize = rgba.len() / 4;
    let mut rgb: Vec<u8> = Vec::new();
    let mut p: usize = 0;
    while p < n
        invariant
            0 <= p <= n,
            n == rgba@.len() / 4,
            rgba@.len() <= usize::MAX,
            rgb@.len() == 3 * p,
            forall|q: int| 0 <= q < p ==> {
                &&& #[trigger] rgb@[3 * q] == rgba@[4 * q]
                &&& rgb@[3 * q + 1] == rgba@[4 * q + 1]
                &&& rgb@[3 * q + 2] == rgba@[4 * q + 2]
            },
        decreases n - p,
    {
        proof {
            assert(4 * (p as int) + 3 < rgba@.len()) by (nonlinear_arith)
                requires
                    (p as int) < n as int,
                    n as int == rgba@.len() as int / 4,
            ;
        }
        let ghost r0 = rgb@;
        rgb.push(rgba[4 * p]);
        rgb.push(rgba[4 * p + 1]);
        rgb.push(rgba[4 * p + 2]);
        proof {
            assert(rgb@ =~= r0.push(rgba@[4 * (p as int)]).push(rgba@[4 * (p as int) + 1]).push(
                rgba@[4 * (p as int) + 2],
            ));
            assert(rgb@[3 * (p as int)] == rgba@[4 * (p as int)]);
            assert(rgb@[3 * (p as int) + 1] == rgba@[4 * (p as int) + 1]);
            assert(rgb@[3 * (p as int) + 2] == rgba@[4 * (p as int) + 2]);
            assert forall|q: int| 0 <= q < p implies {
                &&& #[trigger] rgb@[3 * q] == rgba@[4 * q]
                &&& rgb@[3 * q + 1] == rgba@[4 * q + 1]
                &&& rgb@[3 * q + 2] == rgba@[4 * q + 2]
            } by {
                assert(rgb@[3 * q] == r0[3 * q]);
                assert(rgb@[3 * q + 1] == r0[3 * q + 1]);
                assert(rgb@[3 * q + 2] == r0[3 * q + 2]);
            }
        }
        p = p + 1;
    }
    rgb
}

/// Whether one of the first `m` sites' 3x3 markers covers pixel (x, y).
pub open spec fn dot_covers(xs: Seq<i64>, ys: Seq<i64>, m: int, x: int, y: int) -> bool {
    exists|j: int|
        #![trigger xs[j], ys[j]]
        0 <= j < m && xs[j] - 1 <= x <= xs[j] + 1 && ys[j] - 1 <= y <= ys[j] + 1
}

/// Row-major pixel indices name their coordinates uniquely.
proof fn lemma_rowmajor_injective(w: int, x1: int, y1: int, x2: int, y2: int)
    requires
        0 < w,
        0 <= x1 < w,
        0 <= x2 < w,
        y1 * w + x1 == y2 * w + x2,
    ensures
        x1 == x2,
        y1 == y2,
{
    assert(x1 == x2 && y1 == y2) by (nonlinear_arith)
        requires
            0 < w,
            0 <= x1 < w,
            0 <= x2 < w,
            y1 * w + x1 == y2 * w + x2,
    ;
}

/// Stamp a 3x3 black dot at each site center onto a packed RGB raster.
/// A pixel goes black exactly when some site's marker covers it; every
/// other pixel keeps its bytes.
pub fn draw_site_dots(
    pixels: &mut Vec<u8>,
    width: u32,
    height: u32,
    xs: &Vec<i64>,
    ys: &Vec<i64>,
)
    requires
        old(pixels)@.len() == 3 * (width * height),
        width * height * 3 <= u32::MAX,
        xs@.len() == ys@.len(),
        forall|j: int| 0 <= j < xs@.len() ==> -0x8000_0000 <= #[trigger] xs@[j] <= 0x7fff_ffff,
        forall|j: int| 0 <= j < ys@.len() ==> -0x8000_0000 <= #[trigger] ys@[j] <= 0x7fff_ffff,
    ensures
        final(pixels)@.len() == old(pixels)@.len(),
        forall|x: int, y: int, k: int|
            0 <= x < width && 0 <= y < height && 0 <= k < 3 ==> #[trigger] final(pixels)@[3 * (y
                * width + x) + k] == if dot_covers(xs@, ys@, xs@.len() as int, x, y) {
                0
            } else {
                old(pixels)@[3 * (y * width + x) + k]
            },
{
    let m: usize = xs.len();
    let w = width as i64;
    let h = height as i64;
    let mut j: usize = 0;
    while j < m
        invariant
            0 <= j <= m,
            m == xs@.len() == ys@.len(),
            w == width as i64,
            h == height as i64,
            forall|t: int| 0 <= t < m ==> -0x8000_0000 <= #[trigger] xs@[t] <= 0x7fff_ffff,
            forall|t: int| 0 <= t < m ==> -0x8000_0000 <= #[trigger] ys@[t] <= 0x7fff_ffff,
            pixels@.len() == old(pixels)@.len(),
            old(pixels)@.len() == 3 * (width * height),
            width * height * 3 <= u32::MAX,
            forall|x: int, y: int, k: int|
                0 <= x < width && 0 <= y < height && 0 <= k < 3 ==> #[trigger] pixels@[3 * (y
                    * width + x) + k] == if dot_covers(xs@, ys@, j as int, x, y) {
                    0
                } else {
                    old(pixels)@[3 * (y * width + x) + k]
                },
        decreases m - j,
    {
        let ghost before = pixels@;
        let cx = xs[j];
        let cy = ys[j];
        let mut d: usize = 0;
        while d < 9
            invariant
                0 <= d <= 9,
                w == width as i64,
                h == height as i64,
                -0x8000_0000 <= cx <= 0x7fff_ffff,
                -0x8000_0000 <= cy <= 0x7fff_ffff,
                pixels@.len() == before.len(),
                before.len() == 3 * (width * height),
                width * height * 3 <= u32::MAX,
                forall|x: int, y: int, k: int|
                    0 <= x < width && 0 <= y < height && 0 <= k < 3 ==> #[trigger] pixels@[3 * (y
                        * width + x) + k] == if (cx - 1 <= x <= cx + 1 && cy - 1 <= y <= cy + 1
                        && (y - cy + 1) * 3 + (x - cx + 1) < d) {
                        0
                    } else {
                        before[3 * (y * width + x) + k]
                    },
            decreases 9 - d,
        {
            let dx = (d % 3) as i64 - 1;
            let dy = (d / 3) as i64 - 1;
            let px = cx + dx;
            let py = cy + dy;
            if px >= 0 && px < w && py >= 0 && py < h {
                proof {
                    assert((py as int) * (width as int) + (px as int) < width as int
                        * height as int) by (nonlinear_arith)
                        requires
                            0 <= px as int,
                            (px as int) < width as int,
                            0 <= py as int,
                            (py as int) < height as int,
                    ;
                }
                let pix: usize = (py as usize) * (width as usize) + (px as usize);
                let ghost prev = pixels@;
                pixels.set(3 * pix, 0);
                pixels.set(3 * pix + 1, 0);
                pixels.set(3 * pix + 2, 0);
                proof {
                    assert(pixels@ == prev.update(3 * pix as int, 0u8).update(
                        3 * pix as int + 1,
                        0u8,
                    ).update(3 * pix as int + 2, 0u8));
                    assert forall|x: int, y: int, k: int|
                        0 <= x < width && 0 <= y < height && 0 <= k < 3 implies #[trigger] pixels@[3
                        * (y * width + x) + k] == if (cx - 1 <= x <= cx + 1 && cy - 1 <= y <= cy
                        + 1 && (y - cy + 1) * 3 + (x - cx + 1) < d + 1) {
                        0
                    } else {
                        before[3 * (y * width + x) + k]
                    } by {
                        if y * width + x == py as int * width + px as int {
                            lemma_rowmajor_injective(width as int, x, y, px as int, py as int);
                            assert(x == px as int && y == py as int);
                            assert(x - cx + 1 == dx as int + 1);
                            assert(dx as int + 1 == (d as int) % 3);
                            assert(y - cy + 1 == dy as int + 1);
                            assert(dy as int + 1 == (d as int) / 3);
                            assert((y - cy + 1) * 3 + (x - cx + 1) == 3 * ((d as int) / 3) + (
                            d as int) % 3);
                            assert((y - cy + 1) * 3 + (x - cx + 1) == d as int);
                            assert(pixels@[3 * (y * width + x)] == 0);
                            assert(pixels@[3 * (y * width + x) + 1] == 0);
                            assert(pixels@[3 * (y * width + x) + 2] == 0);
                        } else {
                            assert(3 * (y * width + x) + k != 3 * (pix as int));
                            assert(3 * (y * width + x) + k != 3 * (pix as int) + 1);
                            assert(3 * (y * width + x) + k != 3 * (pix as int) + 2);
                            assert(y * width + x < width * height) by (nonlinear_arith)
                                requires
                                    0 <= x < width as int,
                                    0 <= y < height as int,
                            ;
                            assert(pixels@[3 * (y * width + x) + k] == prev[3 * (y * width + x)
                                + k]);
                            if cx - 1 <= x <= cx + 1 && cy - 1 <= y <= cy + 1 && (y - cy + 1) * 3
                                + (x - cx + 1) == d {
                                assert(x - cx + 1 == (d as int) % 3 && y - cy + 1 == (d as int)
                                    / 3) by (nonlinear_arith)
                                    requires
                                        0 <= x - cx + 1 < 3,
                                        0 <= y - cy + 1 < 3,
                                        (y - cy + 1) * 3 + (x - cx + 1) == d as int,
                                        0 <= d < 9,
                                ;
                                assert(x == px as int && y == py as int);
                                assert(false);
                            }
                        }
                    }
                }
            } else {
                proof {
                    assert forall|x: int, y: int, k: int|
                        0 <= x < width && 0 <= y < height && 0 <= k < 3 implies #[trigger] pixels@[3
                        * (y * width + x) + k] == if (cx - 1 <= x <= cx + 1 && cy - 1 <= y <= cy
                        + 1 && (y - cy + 1) * 3 + (x - cx + 1) < d + 1) {
                        0
                    } else {
                        before[3 * (y * width + x) + k]
                    } by {
                        if cx - 1 <= x <= cx + 1 && cy - 1 <= y <= cy + 1 && (y - cy + 1) * 3 + (x
                            - cx + 1) == d {
                            // The d-th marker position lies outside the
                            // raster, so no in-range pixel is it.
                            assert(x - cx + 1 == (d as int) % 3 && y - cy + 1 == (d as int) / 3)
                                by (nonlinear_arith)
                                requires
                                    0 <= x - cx + 1 < 3,
                                    0 <= y - cy + 1 < 3,
                                    (y - cy + 1) * 3 + (x - cx + 1) == d as int,
                                    0 <= d < 9,
                            ;
                            assert(x == px as int && y == py as int);
                            assert(false);
                        }
                    }
                }
            }
            d = d + 1;
        }
        proof {
            assert forall|x: int, y: int, k: int|
                0 <= x < width && 0 <= y < height && 0 <= k < 3 implies #[trigger] pixels@[3 * (y
                * width + x) + k] == if dot_covers(xs@, ys@, j as int + 1, x, y) {
                0
            } else {
                old(pixels)@[3 * (y * width + x) + k]
            } by {
                if dot_covers(xs@, ys@, j as int + 1, x, y) {
                    if cx - 1 <= x <= cx + 1 && cy - 1 <= y <= cy + 1 {
                        assert((y - cy + 1) * 3 + (x - cx + 1) < 9) by (nonlinear_arith)
                            requires
                                cx - 1 <= x <= cx + 1,
                                cy - 1 <= y <= cy + 1,
                        ;
                    } else {
                        assert(dot_covers(xs@, ys@, j as int, x, y));
                    }
                } else {
                    assert(!(cx - 1 <= x <= cx + 1 && cy - 1 <= y <= cy + 1));
                    assert(!dot_covers(xs@, ys@, j as int, x, y));
                }
            }
        }
        j = j + 1;
    }
}

} // verus!
