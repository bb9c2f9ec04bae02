//! Indexed-color quantization for GIF frames.
//!
//! A frame's RGB pixels are mapped to a 256-entry palette built on the fly:
//! a pixel's color reuses its first palette entry, a new color extends the
//! palette while there is room, and once the palette is full a pixel takes
//! the entry nearest in squared RGB distance, earliest entry winning ties.

use vstd::prelude::*;

verus! {

/// Capacity of a GIF palette.
pub const PALETTE_SIZE: usize = 256;

/// The `p`-th RGB triple of a packed byte sequence.
pub open spec fn color_at(bytes: Seq<u8>, p: int) -> (u8, u8, u8) {
    (bytes[3 * p], bytes[3 * p + 1], bytes[3 * p + 2])
}

/// All RGB triples of a packed byte sequence.
pub open spec fn colors_of(bytes: Seq<u8>) -> Seq<(u8, u8, u8)> {
    Seq::new((bytes.len() / 3) as nat, |p: int| color_at(bytes, p))
}

/// Whether the palette already holds a color.
pub open spec fn has_color(pal: Seq<(u8, u8, u8)>, c: (u8, u8, u8)) -> bool {
    exists|j: int| 0 <= j < pal.len() && pal[j] == c
}

/// First palette entry holding `c`.
pub open spec fn first_color_index(pal: Seq<(u8, u8, u8)>, c: (u8, u8, u8)) -> int
    decreases pal.len(),
{
    if pal.len() == 0 {
        0
    } else if pal[0] == c {
        0
    } else {
        1 + first_color_index(pal.subrange(1, pal.len() as int), c)
    }
}

/// Squared RGB distance.
pub open spec fn dist2(a: (u8, u8, u8), b: (u8, u8, u8)) -> int {
    (a.0 - b.0) * (a.0 - b.0) + (a.1 - b.1) * (a.1 - b.1) + (a.2 - b.2) * (a.2 - b.2)
}

/// First palette entry of least squared distance to `c`.
pub open spec fn nearest_index(pal: Seq<(u8, u8, u8)>, c: (u8, u8, u8)) -> int
    decreases pal.len(),
{
    if pal.len() <= 1 {
        0
    } else {
        let rest = 1 + nearest_index(pal.subrange(1, pal.len() as int), c);
        if dist2(pal[0], c) <= dist2(pal[rest], c) {
            0
        } else {
            rest
        }
    }
}

/// The palette after one pixel: unchanged if the color is known or the
/// palette is full, else extended by the color.
pub open spec fn pal_step(pal: Seq<(u8, u8, u8)>, c: (u8, u8, u8)) -> Seq<(u8, u8, u8)> {
    if has_color(pal, c) || pal.len() >= PALETTE_SIZE {
        pal
    } else {
        pal.push(c)
    }
}

/// The palette that a pixel run builds.
pub open spec fn pal_after(colors: Seq<(u8, u8, u8)>) -> Seq<(u8, u8, u8)>
    decreases colors.len(),
{
    if colors.len() == 0 {
        Seq::empty()
    } else {
        pal_step(pal_after(colors.drop_last()), colors.last())
    }
}

/// The index a pixel of color `c` takes against the palette built so far.
pub open spec fn pixel_index(pal: Seq<(u8, u8, u8)>, c: (u8, u8, u8)) -> int {
    if has_color(pal, c) {
        first_color_index(pal, c)
    } else if pal.len() < PALETTE_SIZE {
        pal.len() as int
    } else {
        nearest_index(pal, c)
    }
}

proof fn lemma_first_index_scan(pal: Seq<(u8, u8, u8)>, c: (u8, u8, u8), i: int)
    requires
        0 <= i < pal.len(),
        pal[i] == c,
        forall|j: int| 0 <= j < i ==> pal[j] != c,
    ensures
        first_color_index(pal, c) == i,
    decreases i,
{
    if i == 0 {
    } else {
        let sub = pal.subrange(1, pal.len() as int);
        lemma_first_index_scan(sub, c, i - 1);
    }
}

proof fn lemma_nearest_bound(pal: Seq<(u8, u8, u8)>, c: (u8, u8, u8))
    requires
        pal.len() >= 1,
    ensures
        0 <= nearest_index(pal, c) < pal.len(),
    decreases pal.len(),
{
    if pal.len() > 1 {
        lemma_nearest_bound(pal.subrange(1, pal.len() as int), c);
    }
}

proof fn lemma_nearest_scan(pal: Seq<(u8, u8, u8)>, c: (u8, u8, u8), m: int)
    requires
        0 <= m < pal.len(),
        forall|j: int| 0 <= j < pal.len() ==> dist2(#[trigger] pal[j], c) >= dist2(pal[m], c),
        forall|j: int| 0 <= j < m ==> dist2(#[trigger] pal[j], c) > dist2(pal[m], c),
    ensures
        nearest_index(pal, c) == m,
    decreases pal.len(),
{
    if pal.len() <= 1 {
    } else {
        let sub = pal.subrange(1, pal.len() as int);
        lemma_nearest_bound(sub, c);
        let r = nearest_index(sub, c);
        if m == 0 {
            assert(pal[1 + r] == sub[r]);
            assert(dist2(pal[1 + r], c) >= dist2(pal[0], c));
        } else {
            assert forall|j: int| 0 <= j < sub.len() implies dist2(#[trigger] sub[j], c) >= dist2(
                sub[m - 1],
                c,
            ) by {
                assert(sub[j] == pal[j + 1]);
            }
            assert forall|j: int| 0 <= j < m - 1 implies dist2(#[trigger] sub[j], c) > dist2(
                sub[m - 1],
                c,
            ) by {
                assert(sub[j] == pal[j + 1]);
            }
            lemma_nearest_scan(sub, c, m - 1);
            assert(dist2(pal[0], c) > dist2(pal[m], c));
        }
    }
}

/// Quantize a packed RGB frame: per-pixel palette indices and the flat
/// 256-entry palette (768 bytes, zero-padded).
pub fn quantize_rgb(rgb: &Vec<u8>) -> (r: (Vec<u8>, Vec<u8>))
    ensures
        ({
            let colors = colors_of(rgb@);
            let pal = pal_after(colors);
            &&& r.0@.len() == colors.len()
            &&& forall|p: int|
                0 <= p < colors.len() ==> (#[trigger] r.0@[p]) as int == pixel_index(
                    pal_after(colors.take(p)),
                    colors[p],
                )
            &&& r.1@.len() == 3 * PALETTE_SIZE
            &&& forall|j: int| 0 <= j < pal.len() ==> {
                &&& r.1@[3 * j] == (#[trigger] pal[j]).0
                &&& r.1@[3 * j + 1] == pal[j].1
                &&& r.1@[3 * j + 2] == pal[j].2
            }
            &&& forall|k: int| 3 * pal.len() <= k < 3 * PALETTE_SIZE ==> #[trigger] r.1@[k] == 0
        }),
{
    let ghost colors = colors_of(rgb@);
    let n: usize = rgb.len() / 3;
    let mut pixels: Vec<u8> = Vec::new();
    let mut palette: Vec<(u8, u8, u8)> = Vec::new();
    proof {
        assert(colors.take(0) =~= Seq::<(u8, u8, u8)>::empty());
    }
    let mut p: usize = 0;
    while p < n
        invariant
            0 <= p <= n,
            n == rgb@.len() / 3,
            rgb@.len() <= usize::MAX,
            colors == colors_of(rgb@),
            colors.len() == n,
            palette@.len() <= PALETTE_SIZE,
            palette@ == pal_after(colors.take(p as int)),
            pixels@.len() == p,
            forall|q: int|
                0 <= q < p ==> (#[trigger] pixels@[q]) as int == pixel_index(
                    pal_after(colors.take(q)),
                    colors[q],
                ),
        decreases n - p,
    {
        proof {
            assert(3 * (p as int) + 2 < rgb@.len()) by (nonlinear_arith)
                requires
                    (p as int) < n as int,
                    n as int == rgb@.len() as int / 3,
            ;
        }
        let c: (u8, u8, u8) = (rgb[3 * p], rgb[3 * p + 1], rgb[3 * p + 2]);
        proof {
            assert(colors[p as int] == color_at(rgb@, p as int));
            assert(c == colors[p as int]);
            assert(colors.take(p as int + 1).drop_last() =~= colors.take(p as int));
            assert(colors.take(p as int + 1).last() == colors[p as int]);
        }

        // First occurrence scan.
        let mut found = false;
        let mut idx: usize = 0;
        let mut i: usize = 0;
        while i < palette.len()
            invariant_except_break
                !found,
            invariant
                0 <= i <= palette@.len(),
                forall|j: int| 0 <= j < i ==> #[trigger] palette@[j] != c,
            ensures
                found ==> idx < palette@.len() && palette@[idx as int] == c && forall|j: int|
                    0 <= j < idx ==> #[trigger] palette@[j] != c,
                !found ==> forall|j: int| 0 <= j < palette@.len() ==> #[trigger] palette@[j] != c,
            decreases palette@.len() - i,
        {
            let e = palette[i];
            if e.0 == c.0 && e.1 == c.1 && e.2 == c.2 {
                proof {
                    assert(palette@[i as int] == c);
                }
                found = true;
                idx = i;
                break;
            }
            i = i + 1;
        }

        if found {
            proof {
                lemma_first_index_scan(palette@, c, idx as int);
                assert(has_color(palette@, c));
            }
        } else {
            proof {
                assert(!has_color(palette@, c)) by {
                    if has_color(palette@, c) {
                        let j = choose|j: int| 0 <= j < palette@.len() && palette@[j] == c;
                        assert(palette@[j] != c);
                    }
                }
            }
            if palette.len() < PALETTE_SIZE {
                idx = palette.len();
                palette.push(c);
            } else {
                // Nearest palette entry; the first minimum wins.
                let mut best: usize = 0;
                let mut best_d: i32 = i32::MAX;
                let mut k: usize = 0;
                while k < palette.len()
                    invariant
                        0 <= k <= palette@.len(),
                        palette@.len() == PALETTE_SIZE,
                        k == 0 ==> best == 0 && best_d == i32::MAX,
                        k > 0 ==> {
                            &&& best < k
                            &&& best_d as int == dist2(palette@[best as int], c)
                            &&& forall|j: int|
                                0 <= j < k ==> dist2(#[trigger] palette@[j], c) >= best_d as int
                            &&& forall|j: int|
                                0 <= j < best ==> dist2(#[trigger] palette@[j], c) > best_d as int
                        },
                    decreases palette@.len() - k,
                {
                    let e = palette[k];
                    let dr = e.0 as i32 - c.0 as i32;
                    let dg = e.1 as i32 - c.1 as i32;
                    let db = e.2 as i32 - c.2 as i32;
                    proof {
                        assert(0 <= dr * dr <= 65025) by (nonlinear_arith)
                            requires
                                -255 <= dr <= 255,
                        ;
                        assert(0 <= dg * dg <= 65025) by (nonlinear_arith)
                            requires
                                -255 <= dg <= 255,
                        ;
                        assert(0 <= db * db <= 65025) by (nonlinear_arith)
                            requires
                                -255 <= db <= 255,
                        ;
                    }
                    let d = dr * dr + dg * dg + db * db;
                    proof {
                        assert(d as int == dist2(palette@[k as int], c));
                    }
                    if d < best_d {
                        best = k;
                        best_d = d;
                    }
                    k = k + 1;
                }
                proof {
                    lemma_nearest_scan(palette@, c, best as int);
                }
                idx = best;
            }
        }

        proof {
            assert(idx < PALETTE_SIZE);
            assert(idx as int == pixel_index(pal_after(colors.take(p as int)), colors[p as int]));
            assert(palette@ == pal_after(colors.take(p as int + 1)));
        }
        pixels.push(idx as u8);
        p = p + 1;
    }

    proof {
        assert(colors.take(n as int) =~= colors);
    }

    // Flatten and pad the palette.
    let mut flat: Vec<u8> = Vec::new();
    let mut j: usize = 0;
    while j < palette.len()
        invariant
            0 <= j <= palette@.len(),
            palette@.len() <= PALETTE_SIZE,
            palette@ == pal_after(colors),
            flat@.len() == 3 * j,
            forall|q: int| 0 <= q < j ==> {
                &&& flat@[3 * q] == (#[trigger] palette@[q]).0
                &&& flat@[3 * q + 1] == palette@[q].1
                &&& flat@[3 * q + 2] == palette@[q].2
            },
        decreases palette@.len() - j,
    {
        let e = palette[j];
        flat.push(e.0);
        flat.push(e.1);
        flat.push(e.2);
        proof {
            assert(flat@[3 * (j as int)] == palette@[j as int].0);
            assert(flat@[3 * (j as int) + 1] == palette@[j as int].1);
            assert(flat@[3 * (j as int) + 2] == palette@[j as int].2);
        }
        j = j + 1;
    }
    let pal_len = palette.len();
    let mut k: usize = 3 * pal_len;
    while k < 3 * PALETTE_SIZE
        invariant
            3 * palette@.len() <= k <= 3 * PALETTE_SIZE,
            palette@.len() <= PALETTE_SIZE,
            palette@ == pal_after(colors),
            flat@.len() == k,
            forall|q: int| 0 <= q < palette@.len() ==> {
                &&& flat@[3 * q] == (#[trigger] palette@[q]).0
                &&& flat@[3 * q + 1] == palette@[q].1
                &&& flat@[3 * q + 2] == palette@[q].2
            },
            forall|q: int| 3 * palette@.len() <= q < k ==> #[trigger] flat@[q] == 0,
        decreases 3 * PALETTE_SIZE - k,
    {
        flat.push(0);
        k = k + 1;
    }

    (pixels, flat)
}

} // verus!
