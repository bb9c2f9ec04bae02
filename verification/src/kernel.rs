//! Per-cell tallying: the exact integer half of the Voronoi kernel.
//!
//! The embedding application assigns each pixel to its nearest site (an f32
//! distance search) and hands the assignment here. This module counts each
//! cell's pixels, sums its color channels and pixel coordinates, and turns
//! the sums into average cell colors. Sums are integers, so tallying pixel
//! ranges separately and merging gives exactly the whole-image tally; that
//! additivity is what makes the application's parallel, row-split reduction
//! deterministic, and it is proved here.

use vstd::prelude::*;

use crate::voronoi::{Rgb, VoronoiResult};
use crate::VoronoiError;

verus! {

/// Number of pixels in `cells` assigned to cell `c`.
pub open spec fn count_cell(cells: Seq<u32>, c: int) -> int
    decreases cells.len(),
{
    if cells.len() == 0 {
        0
    } else {
        count_cell(cells.drop_last(), c) + if cells.last() as int == c {
            1int
        } else {
            0int
        }
    }
}

/// Sum of `vals[p]` over the pixels `p` assigned to cell `c`.
pub open spec fn sum_where(cells: Seq<u32>, vals: Seq<int>, c: int) -> int
    decreases cells.len(),
{
    if cells.len() == 0 {
        0
    } else {
        sum_where(cells.drop_last(), vals.drop_last(), c) + if cells.last() as int == c {
            vals.last()
        } else {
            0int
        }
    }
}

/// Channel `ch` (0 = red, 1 = green, 2 = blue) of the first `n` pixels of a
/// packed RGB byte sequence.
pub open spec fn channel_vals(bytes: Seq<u8>, n: int, ch: int) -> Seq<int> {
    Seq::new(n as nat, |p: int| bytes[3 * p + ch] as int)
}

/// Column of each of `n` consecutive pixels starting at row-major index
/// `start` in a raster `width` pixels wide.
pub open spec fn x_vals(start: int, width: int, n: int) -> Seq<int> {
    Seq::new(n as nat, |p: int| (start + p) % width)
}

/// Row of each of `n` consecutive pixels starting at row-major index
/// `start` in a raster `width` pixels wide.
pub open spec fn y_vals(start: int, width: int, n: int) -> Seq<int> {
    Seq::new(n as nat, |p: int| (start + p) / width)
}

/// Appending a pixel raises exactly its own cell's count.
pub proof fn lemma_count_push(s: Seq<u32>, x: u32, c: int)
    ensures
        count_cell(s.push(x), c) == count_cell(s, c) + if x as int == c {
            1int
        } else {
            0int
        },
{
    assert(s.push(x).drop_last() =~= s);
    assert(s.push(x).last() == x);
}

/// Appending a pixel adds its value to exactly its own cell's sum.
pub proof fn lemma_sum_where_push(s: Seq<u32>, v: Seq<int>, x: u32, val: int, c: int)
    ensures
        sum_where(s.push(x), v.push(val), c) == sum_where(s, v, c) + if x as int == c {
            val
        } else {
            0int
        },
{
    assert(s.push(x).drop_last() =~= s);
    assert(v.push(val).drop_last() =~= v);
}

/// A cell's pixel count never exceeds the number of pixels.
pub proof fn lemma_count_bound(s: Seq<u32>, c: int)
    ensures
        0 <= count_cell(s, c) <= s.len(),
    decreases s.len(),
{
    if s.len() > 0 {
        lemma_count_bound(s.drop_last(), c);
    }
}

/// A sum of values in `[0, bound]` over a cell's pixels stays within
/// `bound` times the cell's pixel count.
pub proof fn lemma_sum_where_bound(s: Seq<u32>, v: Seq<int>, c: int, bound: int)
    requires
        v.len() == s.len(),
        bound >= 0,
        forall|p: int| 0 <= p < v.len() ==> 0 <= #[trigger] v[p] <= bound,
    ensures
        0 <= sum_where(s, v, c) <= bound * count_cell(s, c),
    decreases s.len(),
{
    if s.len() == 0 {
        assert(bound * count_cell(s, c) == 0) by (nonlinear_arith)
            requires
                count_cell(s, c) == 0,
        ;
    } else {
        let s0 = s.drop_last();
        let v0 = v.drop_last();
        lemma_sum_where_bound(s0, v0, c, bound);
        lemma_count_bound(s0, c);
        assert(0 <= v.last() <= bound);
        let k = count_cell(s0, c);
        if s.last() as int == c {
            assert(bound * (k + 1) == bound * k + bound) by (nonlinear_arith);
        }
    }
}

/// Pixel counts split across a concatenation of assignments.
pub proof fn lemma_count_concat(s1: Seq<u32>, s2: Seq<u32>, c: int)
    ensures
        count_cell(s1 + s2, c) == count_cell(s1, c) + count_cell(s2, c),
    decreases s2.len(),
{
    if s2.len() == 0 {
        assert(s1 + s2 =~= s1);
    } else {
        lemma_count_concat(s1, s2.drop_last(), c);
        assert((s1 + s2).drop_last() =~= s1 + s2.drop_last());
        assert((s1 + s2).last() == s2.last());
    }
}

/// Per-cell value sums split across a concatenation of assignments.
pub proof fn lemma_sum_where_concat(s1: Seq<u32>, v1: Seq<int>, s2: Seq<u32>, v2: Seq<int>, c: int)
    requires
        v1.len() == s1.len(),
        v2.len() == s2.len(),
    ensures
        sum_where(s1 + s2, v1 + v2, c) == sum_where(s1, v1, c) + sum_where(s2, v2, c),
    decreases s2.len(),
{
    if s2.len() == 0 {
        assert(s1 + s2 =~= s1);
        assert(v1 + v2 =~= v1);
    } else {
        lemma_sum_where_concat(s1, v1, s2.drop_last(), v2.drop_last(), c);
        assert((s1 + s2).drop_last() =~= s1 + s2.drop_last());
        assert((v1 + v2).drop_last() =~= v1 + v2.drop_last());
        assert((s1 + s2).last() == s2.last());
        assert((v1 + v2).last() == v2.last());
    }
}

/// Per-cell running totals: color-channel sums, coordinate sums, and areas.
pub struct CellTotals {
    pub r_sums: Vec<u64>,
    pub g_sums: Vec<u64>,
    pub b_sums: Vec<u64>,
    pub x_sums: Vec<u64>,
    pub y_sums: Vec<u64>,
    pub areas: Vec<u32>,
}

impl CellTotals {
    /// One slot per cell in every component.
    pub open spec fn wf(self, n: int) -> bool {
        &&& self.r_sums@.len() == n
        &&& self.g_sums@.len() == n
        &&& self.b_sums@.len() == n
        &&& self.x_sums@.len() == n
        &&& self.y_sums@.len() == n
        &&& self.areas@.len() == n
    }

    /// The totals are exactly those of the pixel run `cells`/`bytes` that
    /// starts at row-major index `start` of a raster `width` pixels wide.
    pub open spec fn matches(
        self,
        n: int,
        start: int,
        width: int,
        cells: Seq<u32>,
        bytes: Seq<u8>,
    ) -> bool {
        &&& self.wf(n)
        &&& forall|c: int| 0 <= c < n ==> {
            &&& #[trigger] self.areas@[c] as int == count_cell(cells, c)
            &&& self.r_sums@[c] as int == sum_where(cells, channel_vals(bytes, cells.len() as int, 0), c)
            &&& self.g_sums@[c] as int == sum_where(cells, channel_vals(bytes, cells.len() as int, 1), c)
            &&& self.b_sums@[c] as int == sum_where(cells, channel_vals(bytes, cells.len() as int, 2), c)
            &&& self.x_sums@[c] as int == sum_where(cells, x_vals(start, width, cells.len() as int), c)
            &&& self.y_sums@[c] as int == sum_where(cells, y_vals(start, width, cells.len() as int), c)
        }
    }

    /// Fresh totals: every component zero.
    pub fn new(n: usize) -> (t: CellTotals)
        ensures
            t.wf(n as int),
            forall|c: int| 0 <= c < n ==> {
                &&& #[trigger] t.areas@[c] == 0
                &&& t.r_sums@[c] == 0
                &&& t.g_sums@[c] == 0
                &&& t.b_sums@[c] == 0
                &&& t.x_sums@[c] == 0
                &&& t.y_sums@[c] == 0
            },
    {
        CellTotals {
            r_sums: vec![0u64; n],
            g_sums: vec![0u64; n],
            b_sums: vec![0u64; n],
            x_sums: vec![0u64; n],
            y_sums: vec![0u64; n],
            areas: vec![0u32; n],
        }
    }
}

/// Tally a run of pixels: `cells[p]` is the cell of the pixel at row-major
/// index `start + p`, and `bytes` holds that run's packed RGB samples.
#[verifier::rlimit(100)]
pub fn tally_cells(
    width: u32,
    height: u32,
    num_sites: usize,
    start: usize,
    cells: &Vec<u32>,
    bytes: &Vec<u8>,
) -> (t: CellTotals)
    requires
        width * height * 3 <= u32::MAX,
        start + cells@.len() <= width * height,
        bytes@.len() == 3 * cells@.len(),
        forall|p: int| 0 <= p < cells@.len() ==> #[trigger] cells@[p] < num_sites,
    ensures
        t.matches(num_sites as int, start as int, width as int, cells@, bytes@),
{
    let n_pixels: usize = cells.len();
    let mut t = CellTotals::new(num_sites);
    let ghost w = width as int;
    proof {
        assert(cells@.take(0) =~= Seq::<u32>::empty());
        assert(bytes@.take(0) =~= Seq::<u8>::empty());
        lemma_matches_zero(t, num_sites as int, start as int, w, cells@.take(0), bytes@.take(0));
    }
    let mut p: usize = 0;
    while p < n_pixels
        invariant
            0 <= p <= n_pixels,
            n_pixels == cells@.len(),
            bytes@.len() == 3 * n_pixels,
            width * height * 3 <= u32::MAX,
            start + n_pixels <= width * height,
            w == width as int,
            forall|q: int| 0 <= q < n_pixels ==> #[trigger] cells@[q] < num_sites,
            t.matches(num_sites as int, start as int, w, cells@.take(p as int), bytes@.take(3 * p as int)),
        decreases n_pixels - p,
    {
        let c = cells[p] as usize;
        let r = bytes[3 * p];
        let g = bytes[3 * p + 1];
        let b = bytes[3 * p + 2];
        proof {
            // `start + p < width * height` forces `width > 0`.
            assert(0 < width as int) by (nonlinear_arith)
                requires
                    start as int + n_pixels as int <= width as int * height as int,
                    (p as int) < n_pixels as int,
                    0 <= start as int,
                    0 <= width as int,
            ;
        }
        let x = ((start + p) % (width as usize)) as u64;
        let y = ((start + p) / (width as usize)) as u64;

        let ghost cs = cells@.take(p as int);
        let ghost bs = bytes@.take(3 * p as int);
        let ghost cs1 = cells@.take(p as int + 1);
        let ghost bs1 = bytes@.take(3 * (p as int + 1));
        let ghost a0 = t.areas@;
        let ghost r0 = t.r_sums@;
        let ghost g0 = t.g_sums@;
        let ghost b0 = t.b_sums@;
        let ghost x0 = t.x_sums@;
        let ghost y0 = t.y_sums@;
        proof {
            assert(cs1 =~= cs.push(cells@[p as int]));
            assert(channel_vals(bs1, p as int + 1, 0) =~= channel_vals(bs, p as int, 0).push(
                bytes@[3 * p as int] as int,
            ));
            assert(channel_vals(bs1, p as int + 1, 1) =~= channel_vals(bs, p as int, 1).push(
                bytes@[3 * p as int + 1] as int,
            ));
            assert(channel_vals(bs1, p as int + 1, 2) =~= channel_vals(bs, p as int, 2).push(
                bytes@[3 * p as int + 2] as int,
            ));
            assert(x_vals(start as int, w, p as int + 1) =~= x_vals(start as int, w, p as int).push(
                (start as int + p as int) % w,
            ));
            assert(y_vals(start as int, w, p as int + 1) =~= y_vals(start as int, w, p as int).push(
                (start as int + p as int) / w,
            ));
            let ci = cells@[p as int] as int;
            lemma_count_push(cs, cells@[p as int], ci);
            lemma_sum_where_push(cs, channel_vals(bs, p as int, 0), cells@[p as int], bytes@[3 * p as int] as int, ci);
            lemma_sum_where_push(cs, channel_vals(bs, p as int, 1), cells@[p as int], bytes@[3 * p as int + 1] as int, ci);
            lemma_sum_where_push(cs, channel_vals(bs, p as int, 2), cells@[p as int], bytes@[3 * p as int + 2] as int, ci);
            lemma_sum_where_push(cs, x_vals(start as int, w, p as int), cells@[p as int], (start as int + p as int) % w, ci);
            lemma_sum_where_push(cs, y_vals(start as int, w, p as int), cells@[p as int], (start as int + p as int) / w, ci);
            // Frame: every other cell keeps its totals.
            assert forall|d: int| 0 <= d < num_sites && d != ci implies {
                &&& count_cell(cs1, d) == count_cell(cs, d)
                &&& sum_where(cs1, channel_vals(bs1, p as int + 1, 0), d) == sum_where(cs, channel_vals(bs, p as int, 0), d)
                &&& sum_where(cs1, channel_vals(bs1, p as int + 1, 1), d) == sum_where(cs, channel_vals(bs, p as int, 1), d)
                &&& sum_where(cs1, channel_vals(bs1, p as int + 1, 2), d) == sum_where(cs, channel_vals(bs, p as int, 2), d)
                &&& sum_where(cs1, x_vals(start as int, w, p as int + 1), d) == sum_where(cs, x_vals(start as int, w, p as int), d)
                &&& sum_where(cs1, y_vals(start as int, w, p as int + 1), d) == sum_where(cs, y_vals(start as int, w, p as int), d)
            } by {
                lemma_count_push(cs, cells@[p as int], d);
                lemma_sum_where_push(cs, channel_vals(bs, p as int, 0), cells@[p as int], bytes@[3 * p as int] as int, d);
                lemma_sum_where_push(cs, channel_vals(bs, p as int, 1), cells@[p as int], bytes@[3 * p as int + 1] as int, d);
                lemma_sum_where_push(cs, channel_vals(bs, p as int, 2), cells@[p as int], bytes@[3 * p as int + 2] as int, d);
                lemma_sum_where_push(cs, x_vals(start as int, w, p as int), cells@[p as int], (start as int + p as int) % w, d);
                lemma_sum_where_push(cs, y_vals(start as int, w, p as int), cells@[p as int], (start as int + p as int) / w, d);
            }
            // Overflow bounds for the updated cell.
            lemma_count_bound(cs, ci);
            lemma_channel_vals_in_range(bs, p as int);
            lemma_sum_where_bound(cs, channel_vals(bs, p as int, 0), ci, 255);
            lemma_sum_where_bound(cs, channel_vals(bs, p as int, 1), ci, 255);
            lemma_sum_where_bound(cs, channel_vals(bs, p as int, 2), ci, 255);
            lemma_coord_vals_in_range(start as int, w, width as int * height as int, p as int);
            lemma_sum_where_bound(cs, x_vals(start as int, w, p as int), ci, w - 1);
            lemma_sum_where_bound(cs, y_vals(start as int, w, p as int), ci, width as int * height as int);
            assert(255 * count_cell(cs, ci) + 255 <= 255 * (p as int + 1) <= u64::MAX) by (nonlinear_arith)
                requires
                    count_cell(cs, ci) <= p as int,
                    3 * (p as int + 1) <= u32::MAX,
            ;
            assert((w - 1) * count_cell(cs, ci) + w <= u64::MAX) by (nonlinear_arith)
                requires
                    0 <= count_cell(cs, ci) <= p as int,
                    3 * (p as int + 1) <= u32::MAX,
                    0 < w <= u32::MAX,
            ;
            let hh = width as int * height as int;
            assert(hh * count_cell(cs, ci) + hh <= u64::MAX) by (nonlinear_arith)
                requires
                    0 <= count_cell(cs, ci) <= p as int,
                    3 * (p as int + 1) <= u32::MAX,
                    0 <= hh,
                    3 * hh <= u32::MAX,
            ;
            // Instantiate the invariant at the updated cell.
            assert(t.areas@[ci] as int == count_cell(cs, ci));
            assert(t.r_sums@[ci] as int == sum_where(cs, channel_vals(bs, p as int, 0), ci));
            assert(t.g_sums@[ci] as int == sum_where(cs, channel_vals(bs, p as int, 1), ci));
            assert(t.b_sums@[ci] as int == sum_where(cs, channel_vals(bs, p as int, 2), ci));
            assert(t.x_sums@[ci] as int == sum_where(cs, x_vals(start as int, w, p as int), ci));
            assert(t.y_sums@[ci] as int == sum_where(cs, y_vals(start as int, w, p as int), ci));
            assert(t.r_sums@[ci] as int + 255 <= u64::MAX);
            assert(t.g_sums@[ci] as int + 255 <= u64::MAX);
            assert(t.b_sums@[ci] as int + 255 <= u64::MAX);
            assert(t.x_sums@[ci] as int + (w - 1) <= u64::MAX);
            assert(t.y_sums@[ci] as int + width as int * height as int <= u64::MAX);
            assert((start as int + p as int) / w <= width as int * height as int) by (nonlinear_arith)
                requires
                    0 < w,
                    0 <= start as int + p as int,
                    start as int + p as int <= width as int * height as int,
                    w == width as int,
            ;
        }

        let rs = t.r_sums[c];
        t.r_sums.set(c, rs + r as u64);
        let gs = t.g_sums[c];
        t.g_sums.set(c, gs + g as u64);
        let bsum = t.b_sums[c];
        t.b_sums.set(c, bsum + b as u64);
        let xs = t.x_sums[c];
        t.x_sums.set(c, xs + x);
        let ys = t.y_sums[c];
        t.y_sums.set(c, ys + y);
        let ar = t.areas[c];
        t.areas.set(c, ar + 1);

        proof {
            let ci = cells@[p as int] as int;
            assert(t.areas@ == a0.update(c as int, ((ar + 1) as u32)));
            assert(t.r_sums@ == r0.update(c as int, ((rs + r) as u64)));
            assert(t.g_sums@ == g0.update(c as int, ((gs + g) as u64)));
            assert(t.b_sums@ == b0.update(c as int, ((bsum + b) as u64)));
            assert(t.x_sums@ == x0.update(c as int, ((xs + x) as u64)));
            assert(t.y_sums@ == y0.update(c as int, ((ys + y) as u64)));
            assert forall|d: int| 0 <= d < num_sites implies {
                &&& #[trigger] t.areas@[d] as int == count_cell(cs1, d)
                &&& t.r_sums@[d] as int == sum_where(cs1, channel_vals(bs1, p as int + 1, 0), d)
                &&& t.g_sums@[d] as int == sum_where(cs1, channel_vals(bs1, p as int + 1, 1), d)
                &&& t.b_sums@[d] as int == sum_where(cs1, channel_vals(bs1, p as int + 1, 2), d)
                &&& t.x_sums@[d] as int == sum_where(cs1, x_vals(start as int, w, p as int + 1), d)
                &&& t.y_sums@[d] as int == sum_where(cs1, y_vals(start as int, w, p as int + 1), d)
            } by {
                lemma_count_push(cs, cells@[p as int], d);
                lemma_sum_where_push(cs, channel_vals(bs, p as int, 0), cells@[p as int], bytes@[3 * p as int] as int, d);
                lemma_sum_where_push(cs, channel_vals(bs, p as int, 1), cells@[p as int], bytes@[3 * p as int + 1] as int, d);
                lemma_sum_where_push(cs, channel_vals(bs, p as int, 2), cells@[p as int], bytes@[3 * p as int + 2] as int, d);
                lemma_sum_where_push(cs, x_vals(start as int, w, p as int), cells@[p as int], (start as int + p as int) % w, d);
                lemma_sum_where_push(cs, y_vals(start as int, w, p as int), cells@[p as int], (start as int + p as int) / w, d);
                assert(a0[d] as int == count_cell(cs, d));
                assert(r0[d] as int == sum_where(cs, channel_vals(bs, p as int, 0), d));
                assert(g0[d] as int == sum_where(cs, channel_vals(bs, p as int, 1), d));
                assert(b0[d] as int == sum_where(cs, channel_vals(bs, p as int, 2), d));
                assert(x0[d] as int == sum_where(cs, x_vals(start as int, w, p as int), d));
                assert(y0[d] as int == sum_where(cs, y_vals(start as int, w, p as int), d));
                if d == ci {
                    assert(t.areas@[d] == ((ar + 1) as u32));
                    assert(t.r_sums@[d] == ((rs + r) as u64));
                    assert(t.g_sums@[d] == ((gs + g) as u64));
                    assert(t.b_sums@[d] == ((bsum + b) as u64));
                    assert(t.x_sums@[d] == ((xs + x) as u64));
                    assert(t.y_sums@[d] == ((ys + y) as u64));
                } else {
                    assert(t.areas@[d] == a0[d]);
                    assert(t.r_sums@[d] == r0[d]);
                    assert(t.g_sums@[d] == g0[d]);
                    assert(t.b_sums@[d] == b0[d]);
                    assert(t.x_sums@[d] == x0[d]);
                    assert(t.y_sums@[d] == y0[d]);
                }
            }
            assert(t.matches(num_sites as int, start as int, w, cs1, bs1));
            assert(cs1 == cells@.take(p as int + 1));
            assert(bs1 == bytes@.take(3 * (p as int + 1)));
        }

        p = p + 1;
    }
    proof {
        assert(cells@.take(n_pixels as int) =~= cells@);
        assert(bytes@.take(3 * n_pixels as int) =~= bytes@);
    }
    t
}

/// All-zero totals tally the empty pixel run.
proof fn lemma_matches_zero(
    t: CellTotals,
    n: int,
    start: int,
    width: int,
    cells: Seq<u32>,
    bytes: Seq<u8>,
)
    requires
        t.wf(n),
        cells.len() == 0,
        forall|c: int| 0 <= c < n ==> {
            &&& #[trigger] t.areas@[c] == 0
            &&& t.r_sums@[c] == 0
            &&& t.g_sums@[c] == 0
            &&& t.b_sums@[c] == 0
            &&& t.x_sums@[c] == 0
            &&& t.y_sums@[c] == 0
        },
    ensures
        t.matches(n, start, width, cells, bytes),
{
    assert forall|c: int| 0 <= c < n implies {
        &&& #[trigger] t.areas@[c] as int == count_cell(cells, c)
        &&& t.r_sums@[c] as int == sum_where(cells, channel_vals(bytes, cells.len() as int, 0), c)
        &&& t.g_sums@[c] as int == sum_where(cells, channel_vals(bytes, cells.len() as int, 1), c)
        &&& t.b_sums@[c] as int == sum_where(cells, channel_vals(bytes, cells.len() as int, 2), c)
        &&& t.x_sums@[c] as int == sum_where(cells, x_vals(start, width, cells.len() as int), c)
        &&& t.y_sums@[c] as int == sum_where(cells, y_vals(start, width, cells.len() as int), c)
    } by {
        assert(count_cell(cells, c) == 0);
        assert(sum_where(cells, channel_vals(bytes, cells.len() as int, 0), c) == 0);
        assert(sum_where(cells, channel_vals(bytes, cells.len() as int, 1), c) == 0);
        assert(sum_where(cells, channel_vals(bytes, cells.len() as int, 2), c) == 0);
        assert(sum_where(cells, x_vals(start, width, cells.len() as int), c) == 0);
        assert(sum_where(cells, y_vals(start, width, cells.len() as int), c) == 0);
    }
}

/// Sum of the pixel counts of cells `0 .. n`.
pub open spec fn sum_counts(cells: Seq<u32>, n: int) -> int
    decreases n,
{
    if n <= 0 {
        0
    } else {
        sum_counts(cells, n - 1) + count_cell(cells, n - 1)
    }
}

/// Sum of a sequence of areas.
pub open spec fn sum_u32(s: Seq<u32>) -> int
    decreases s.len(),
{
    if s.len() == 0 {
        0
    } else {
        sum_u32(s.drop_last()) + s.last()
    }
}

proof fn lemma_sum_counts_push(s: Seq<u32>, x: u32, n: int)
    ensures
        sum_counts(s.push(x), n) == sum_counts(s, n) + if 0 <= x < n {
            1int
        } else {
            0int
        },
    decreases n,
{
    if n > 0 {
        lemma_sum_counts_push(s, x, n - 1);
        lemma_count_push(s, x, n - 1);
    }
}

/// Every pixel lands in exactly one cell, so the per-cell counts add up to
/// the number of pixels.
pub proof fn lemma_sum_counts_is_len(cells: Seq<u32>, n: int)
    requires
        forall|p: int| 0 <= p < cells.len() ==> (#[trigger] cells[p]) < n,
    ensures
        sum_counts(cells, n) == cells.len(),
    decreases cells.len(),
{
    if cells.len() == 0 {
        lemma_sum_counts_empty(cells, n);
    } else {
        let s0 = cells.drop_last();
        lemma_sum_counts_is_len(s0, n);
        assert(cells =~= s0.push(cells.last()));
        lemma_sum_counts_push(s0, cells.last(), n);
    }
}

proof fn lemma_sum_counts_empty(cells: Seq<u32>, n: int)
    requires
        cells.len() == 0,
    ensures
        sum_counts(cells, n) == 0,
    decreases n,
{
    if n > 0 {
        lemma_sum_counts_empty(cells, n - 1);
    }
}

proof fn lemma_sum_u32_counts(areas: Seq<u32>, cells: Seq<u32>, n: int)
    requires
        areas.len() == n,
        forall|c: int| 0 <= c < n ==> (#[trigger] areas[c]) as int == count_cell(cells, c),
    ensures
        sum_u32(areas) == sum_counts(cells, n),
    decreases n,
{
    if n > 0 {
        lemma_sum_u32_counts(areas.drop_last(), cells, n - 1);
    }
}

/// The areas of a tally sum to the number of pixels tallied.
pub proof fn lemma_total_area(
    t: CellTotals,
    n: int,
    start: int,
    width: int,
    cells: Seq<u32>,
    bytes: Seq<u8>,
)
    requires
        t.matches(n, start, width, cells, bytes),
        forall|p: int| 0 <= p < cells.len() ==> (#[trigger] cells[p]) < n,
        0 <= n,
    ensures
        sum_u32(t.areas@) == cells.len(),
{
    lemma_sum_u32_counts(t.areas@, cells, n);
    lemma_sum_counts_is_len(cells, n);
}

/// A tally's sums are bounded by what its pixel counts allow, so average
/// colors fit in a byte.
pub proof fn lemma_totals_bounds(
    t: CellTotals,
    n: int,
    start: int,
    width: int,
    cells: Seq<u32>,
    bytes: Seq<u8>,
)
    requires
        t.matches(n, start, width, cells, bytes),
        bytes.len() == 3 * cells.len(),
    ensures
        forall|c: int| 0 <= c < n ==> {
            &&& (#[trigger] t.r_sums@[c]) as int <= 255 * t.areas@[c]
            &&& t.g_sums@[c] as int <= 255 * t.areas@[c]
            &&& t.b_sums@[c] as int <= 255 * t.areas@[c]
        },
{
    lemma_channel_vals_in_range(bytes, cells.len() as int);
    assert forall|c: int| 0 <= c < n implies {
        &&& (#[trigger] t.r_sums@[c]) as int <= 255 * t.areas@[c]
        &&& t.g_sums@[c] as int <= 255 * t.areas@[c]
        &&& t.b_sums@[c] as int <= 255 * t.areas@[c]
    } by {
        assert(t.areas@[c] as int == count_cell(cells, c));
        lemma_sum_where_bound(cells, channel_vals(bytes, cells.len() as int, 0), c, 255);
        lemma_sum_where_bound(cells, channel_vals(bytes, cells.len() as int, 1), c, 255);
        lemma_sum_where_bound(cells, channel_vals(bytes, cells.len() as int, 2), c, 255);
    }
}

/// Average the tallied color sums into per-cell colors. A cell that
/// received no pixels gets mid gray.
pub fn finalize_colors(t: &CellTotals, num_sites: usize) -> (colors: Vec<Rgb>)
    requires
        t.wf(num_sites as int),
        forall|c: int| 0 <= c < num_sites ==> {
            &&& (#[trigger] t.r_sums@[c]) as int <= 255 * t.areas@[c]
            &&& t.g_sums@[c] as int <= 255 * t.areas@[c]
            &&& t.b_sums@[c] as int <= 255 * t.areas@[c]
        },
    ensures
        colors@.len() == num_sites,
        forall|c: int| 0 <= c < num_sites ==> {
            if t.areas@[c] > 0 {
                &&& (#[trigger] colors@[c])[0] as int == t.r_sums@[c] as int / t.areas@[c] as int
                &&& colors@[c][1] as int == t.g_sums@[c] as int / t.areas@[c] as int
                &&& colors@[c][2] as int == t.b_sums@[c] as int / t.areas@[c] as int
            } else {
                &&& (#[trigger] colors@[c])[0] == 128
                &&& colors@[c][1] == 128
                &&& colors@[c][2] == 128
            }
        },
{
    let mut colors: Vec<Rgb> = Vec::new();
    let mut c: usize = 0;
    while c < num_sites
        invariant
            0 <= c <= num_sites,
            t.wf(num_sites as int),
            forall|d: int| 0 <= d < num_sites ==> {
                &&& (#[trigger] t.r_sums@[d]) as int <= 255 * t.areas@[d]
                &&& t.g_sums@[d] as int <= 255 * t.areas@[d]
                &&& t.b_sums@[d] as int <= 255 * t.areas@[d]
            },
            colors@.len() == c,
            forall|d: int| 0 <= d < c ==> {
                if t.areas@[d] > 0 {
                    &&& (#[trigger] colors@[d])[0] as int == t.r_sums@[d] as int / t.areas@[d] as int
                    &&& colors@[d][1] as int == t.g_sums@[d] as int / t.areas@[d] as int
                    &&& colors@[d][2] as int == t.b_sums@[d] as int / t.areas@[d] as int
                } else {
                    &&& (#[trigger] colors@[d])[0] == 128
                    &&& colors@[d][1] == 128
                    &&& colors@[d][2] == 128
                }
            },
        decreases num_sites - c,
    {
        let count = t.areas[c];
        if count > 0 {
            let cnt = count as u64;
            let rq = t.r_sums[c] / cnt;
            let gq = t.g_sums[c] / cnt;
            let bq = t.b_sums[c] / cnt;
            proof {
                lemma_div_at_most_255(t.r_sums@[c as int] as int, cnt as int);
                lemma_div_at_most_255(t.g_sums@[c as int] as int, cnt as int);
                lemma_div_at_most_255(t.b_sums@[c as int] as int, cnt as int);
            }
            colors.push([rq as u8, gq as u8, bq as u8]);
        } else {
            colors.push([128u8, 128u8, 128u8]);
        }
        c = c + 1;
    }
    colors
}

proof fn lemma_div_at_most_255(s: int, cnt: int)
    requires
        0 < cnt,
        0 <= s <= 255 * cnt,
    ensures
        0 <= s / cnt <= 255,
{
    assert(0 <= s / cnt <= 255) by (nonlinear_arith)
        requires
            0 < cnt,
            0 <= s <= 255 * cnt,
    ;
}

/// The result record that a pixel assignment and an image determine.
pub open spec fn result_matches(
    r: VoronoiResult,
    width: u32,
    height: u32,
    num_sites: int,
    cells: Seq<u32>,
    bytes: Seq<u8>,
) -> bool {
    &&& r.width == width
    &&& r.height == height
    &&& r.cell_of@.len() == cells.len()
    &&& forall|p: int| 0 <= p < cells.len() ==> (#[trigger] r.cell_of@[p]) as int == cells[p] as int
    &&& r.cell_areas@.len() == num_sites
    &&& r.cell_colors@.len() == num_sites
    &&& forall|c: int|
        0 <= c < num_sites ==> (#[trigger] r.cell_areas@[c]) as int == count_cell(cells, c)
    &&& forall|c: int| 0 <= c < num_sites ==> {
        if count_cell(cells, c) > 0 {
            &&& (#[trigger] r.cell_colors@[c])[0] as int == sum_where(
                cells,
                channel_vals(bytes, cells.len() as int, 0),
                c,
            ) / count_cell(cells, c)
            &&& r.cell_colors@[c][1] as int == sum_where(
                cells,
                channel_vals(bytes, cells.len() as int, 1),
                c,
            ) / count_cell(cells, c)
            &&& r.cell_colors@[c][2] as int == sum_where(
                cells,
                channel_vals(bytes, cells.len() as int, 2),
                c,
            ) / count_cell(cells, c)
        } else {
            &&& (#[trigger] r.cell_colors@[c])[0] == 128
            &&& r.cell_colors@[c][1] == 128
            &&& r.cell_colors@[c][2] == 128
        }
    }
}

/// Assemble a full result from an image and a per-pixel cell assignment:
/// tally, average the colors, and record the assignment. An empty site
/// list is the one error.
pub fn build_result(
    width: u32,
    height: u32,
    num_sites: usize,
    cells: &Vec<u32>,
    bytes: &Vec<u8>,
) -> (r: Result<VoronoiResult, VoronoiError>)
    requires
        width * height * 3 <= u32::MAX,
        cells@.len() == width * height,
        bytes@.len() == 3 * cells@.len(),
        num_sites <= i32::MAX,
        num_sites > 0 ==> forall|p: int| 0 <= p < cells@.len() ==> #[trigger] cells@[p] < num_sites,
    ensures
        num_sites == 0 <==> r is Err,
        r is Err ==> r->Err_0 == VoronoiError::NoSites,
        r is Ok ==> {
            &&& result_matches(r->Ok_0, width, height, num_sites as int, cells@, bytes@)
            &&& r->Ok_0.wf()
            &&& sum_u32(r->Ok_0.cell_areas@) == width * height
        },
{
    if num_sites == 0 {
        return Err(VoronoiError::NoSites);
    }
    let t = tally_cells(width, height, num_sites, 0, cells, bytes);
    proof {
        lemma_totals_bounds(t, num_sites as int, 0, width as int, cells@, bytes@);
        lemma_total_area(t, num_sites as int, 0, width as int, cells@, bytes@);
    }
    let cell_colors = finalize_colors(&t, num_sites);
    let n_pixels: usize = cells.len();
    let mut cell_of: Vec<i32> = Vec::new();
    let mut p: usize = 0;
    while p < n_pixels
        invariant
            0 <= p <= n_pixels,
            n_pixels == cells@.len(),
            0 < num_sites <= i32::MAX,
            forall|q: int| 0 <= q < n_pixels ==> #[trigger] cells@[q] < num_sites,
            cell_of@.len() == p,
            forall|q: int| 0 <= q < p ==> (#[trigger] cell_of@[q]) as int == cells@[q] as int,
        decreases n_pixels - p,
    {
        cell_of.push(cells[p] as i32);
        p = p + 1;
    }
    Ok(VoronoiResult { cell_of, cell_colors, cell_areas: t.areas, width, height })
}

impl CellTotals {
    /// Add another tally's totals into this one, elementwise.
    pub fn merge(&mut self, other: &CellTotals, num_sites: usize)
        requires
            old(self).wf(num_sites as int),
            other.wf(num_sites as int),
            forall|c: int| 0 <= c < num_sites ==> {
                &&& (#[trigger] old(self).areas@[c]) + other.areas@[c] <= u32::MAX
                &&& old(self).r_sums@[c] + other.r_sums@[c] <= u64::MAX
                &&& old(self).g_sums@[c] + other.g_sums@[c] <= u64::MAX
                &&& old(self).b_sums@[c] + other.b_sums@[c] <= u64::MAX
                &&& old(self).x_sums@[c] + other.x_sums@[c] <= u64::MAX
                &&& old(self).y_sums@[c] + other.y_sums@[c] <= u64::MAX
            },
        ensures
            final(self).wf(num_sites as int),
            forall|c: int| 0 <= c < num_sites ==> {
                &&& (#[trigger] final(self).areas@[c]) as int == old(self).areas@[c] + other.areas@[c]
                &&& final(self).r_sums@[c] as int == old(self).r_sums@[c] + other.r_sums@[c]
                &&& final(self).g_sums@[c] as int == old(self).g_sums@[c] + other.g_sums@[c]
                &&& final(self).b_sums@[c] as int == old(self).b_sums@[c] + other.b_sums@[c]
                &&& final(self).x_sums@[c] as int == old(self).x_sums@[c] + other.x_sums@[c]
                &&& final(self).y_sums@[c] as int == old(self).y_sums@[c] + other.y_sums@[c]
            },
    {
        let mut c: usize = 0;
        while c < num_sites
            invariant
                0 <= c <= num_sites,
                self.wf(num_sites as int),
                other.wf(num_sites as int),
                forall|d: int| 0 <= d < num_sites ==> {
                    &&& (#[trigger] old(self).areas@[d]) + other.areas@[d] <= u32::MAX
                    &&& old(self).r_sums@[d] + other.r_sums@[d] <= u64::MAX
                    &&& old(self).g_sums@[d] + other.g_sums@[d] <= u64::MAX
                    &&& old(self).b_sums@[d] + other.b_sums@[d] <= u64::MAX
                    &&& old(self).x_sums@[d] + other.x_sums@[d] <= u64::MAX
                    &&& old(self).y_sums@[d] + other.y_sums@[d] <= u64::MAX
                },
                forall|d: int| 0 <= d < c ==> {
                    &&& (#[trigger] self.areas@[d]) as int == old(self).areas@[d] + other.areas@[d]
                    &&& self.r_sums@[d] as int == old(self).r_sums@[d] + other.r_sums@[d]
                    &&& self.g_sums@[d] as int == old(self).g_sums@[d] + other.g_sums@[d]
                    &&& self.b_sums@[d] as int == old(self).b_sums@[d] + other.b_sums@[d]
                    &&& self.x_sums@[d] as int == old(self).x_sums@[d] + other.x_sums@[d]
                    &&& self.y_sums@[d] as int == old(self).y_sums@[d] + other.y_sums@[d]
                },
                forall|d: int| c <= d < num_sites ==> {
                    &&& (#[trigger] self.areas@[d]) == old(self).areas@[d]
                    &&& self.r_sums@[d] == old(self).r_sums@[d]
                    &&& self.g_sums@[d] == old(self).g_sums@[d]
                    &&& self.b_sums@[d] == old(self).b_sums@[d]
                    &&& self.x_sums@[d] == old(self).x_sums@[d]
                    &&& self.y_sums@[d] == old(self).y_sums@[d]
                },
            decreases num_sites - c,
        {
            proof {
                assert(old(self).areas@[c as int] + other.areas@[c as int] <= u32::MAX);
                assert(self.areas@[c as int] == old(self).areas@[c as int]);
            }
            let v = self.r_sums[c];
            self.r_sums.set(c, v + other.r_sums[c]);
            let v = self.g_sums[c];
            self.g_sums.set(c, v + other.g_sums[c]);
            let v = self.b_sums[c];
            self.b_sums.set(c, v + other.b_sums[c]);
            let v = self.x_sums[c];
            self.x_sums.set(c, v + other.x_sums[c]);
            let v = self.y_sums[c];
            self.y_sums.set(c, v + other.y_sums[c]);
            let v = self.areas[c];
            self.areas.set(c, v + other.areas[c]);
            c = c + 1;
        }
    }
}

/// Tallies of adjacent pixel runs merge, elementwise, into the tally of the
/// concatenated run: integer sums make the row-split parallel reduction
/// exactly equal to the sequential single pass, whatever the split.
pub proof fn lemma_merge_matches(
    t1: CellTotals,
    t2: CellTotals,
    tm: CellTotals,
    n: int,
    start: int,
    width: int,
    cells1: Seq<u32>,
    bytes1: Seq<u8>,
    cells2: Seq<u32>,
    bytes2: Seq<u8>,
)
    requires
        t1.matches(n, start, width, cells1, bytes1),
        t2.matches(n, start + cells1.len(), width, cells2, bytes2),
        bytes1.len() == 3 * cells1.len(),
        bytes2.len() == 3 * cells2.len(),
        tm.wf(n),
        forall|c: int| 0 <= c < n ==> {
            &&& (#[trigger] tm.areas@[c]) as int == t1.areas@[c] + t2.areas@[c]
            &&& tm.r_sums@[c] as int == t1.r_sums@[c] + t2.r_sums@[c]
            &&& tm.g_sums@[c] as int == t1.g_sums@[c] + t2.g_sums@[c]
            &&& tm.b_sums@[c] as int == t1.b_sums@[c] + t2.b_sums@[c]
            &&& tm.x_sums@[c] as int == t1.x_sums@[c] + t2.x_sums@[c]
            &&& tm.y_sums@[c] as int == t1.y_sums@[c] + t2.y_sums@[c]
        },
    ensures
        tm.matches(n, start, width, cells1 + cells2, bytes1 + bytes2),
{
    let cells = cells1 + cells2;
    let bytes = bytes1 + bytes2;
    let n1 = cells1.len() as int;
    let n2 = cells2.len() as int;
    assert forall|ch: int| 0 <= ch < 3 implies #[trigger] channel_vals(bytes, n1 + n2, ch)
        =~= channel_vals(bytes1, n1, ch) + channel_vals(bytes2, n2, ch) by {}
    assert(x_vals(start, width, n1 + n2) =~= x_vals(start, width, n1) + x_vals(
        start + n1,
        width,
        n2,
    ));
    assert(y_vals(start, width, n1 + n2) =~= y_vals(start, width, n1) + y_vals(
        start + n1,
        width,
        n2,
    ));
    assert forall|c: int| 0 <= c < n implies {
        &&& #[trigger] tm.areas@[c] as int == count_cell(cells, c)
        &&& tm.r_sums@[c] as int == sum_where(cells, channel_vals(bytes, cells.len() as int, 0), c)
        &&& tm.g_sums@[c] as int == sum_where(cells, channel_vals(bytes, cells.len() as int, 1), c)
        &&& tm.b_sums@[c] as int == sum_where(cells, channel_vals(bytes, cells.len() as int, 2), c)
        &&& tm.x_sums@[c] as int == sum_where(cells, x_vals(start, width, cells.len() as int), c)
        &&& tm.y_sums@[c] as int == sum_where(cells, y_vals(start, width, cells.len() as int), c)
    } by {
        assert(t1.areas@[c] as int == count_cell(cells1, c));
        assert(t2.areas@[c] as int == count_cell(cells2, c));
        assert(tm.areas@[c] as int == t1.areas@[c] + t2.areas@[c]);
        lemma_count_concat(cells1, cells2, c);
        lemma_sum_where_concat(
            cells1,
            channel_vals(bytes1, n1, 0),
            cells2,
            channel_vals(bytes2, n2, 0),
            c,
        );
        lemma_sum_where_concat(
            cells1,
            channel_vals(bytes1, n1, 1),
            cells2,
            channel_vals(bytes2, n2, 1),
            c,
        );
        lemma_sum_where_concat(
            cells1,
            channel_vals(bytes1, n1, 2),
            cells2,
            channel_vals(bytes2, n2, 2),
            c,
        );
        lemma_sum_where_concat(
            cells1,
            x_vals(start, width, n1),
            cells2,
            x_vals(start + n1, width, n2),
            c,
        );
        lemma_sum_where_concat(
            cells1,
            y_vals(start, width, n1),
            cells2,
            y_vals(start + n1, width, n2),
            c,
        );
    }
}

/// The result record is a function of the image and the assignment alone:
/// any two results built from identical inputs agree on every field.
pub proof fn lemma_result_unique(
    r1: VoronoiResult,
    r2: VoronoiResult,
    width: u32,
    height: u32,
    num_sites: int,
    cells: Seq<u32>,
    bytes: Seq<u8>,
)
    requires
        result_matches(r1, width, height, num_sites, cells, bytes),
        result_matches(r2, width, height, num_sites, cells, bytes),
    ensures
        r1.width == r2.width,
        r1.height == r2.height,
        r1.cell_of@ == r2.cell_of@,
        r1.cell_areas@ == r2.cell_areas@,
        forall|c: int| 0 <= c < num_sites ==> {
            &&& (#[trigger] r1.cell_colors@[c])[0] == r2.cell_colors@[c][0]
            &&& r1.cell_colors@[c][1] == r2.cell_colors@[c][1]
            &&& r1.cell_colors@[c][2] == r2.cell_colors@[c][2]
        },
{
    assert(r1.cell_of@ =~= r2.cell_of@);
    assert(r1.cell_areas@ =~= r2.cell_areas@);
}

/// Every color sample sits in a byte's range.
proof fn lemma_channel_vals_in_range(bytes: Seq<u8>, n: int)
    requires
        3 * n <= bytes.len(),
    ensures
        forall|ch: int, p: int|
            0 <= ch < 3 && 0 <= p < n ==> 0 <= #[trigger] channel_vals(bytes, n, ch)[p] <= 255,
{
}

/// Columns stay below the raster width; rows stay below its pixel count.
proof fn lemma_coord_vals_in_range(start: int, width: int, area: int, n: int)
    requires
        0 < width,
        0 <= start,
        start + n <= area,
    ensures
        forall|p: int| 0 <= p < n ==> 0 <= #[trigger] x_vals(start, width, n)[p] <= width - 1,
        forall|p: int| 0 <= p < n ==> 0 <= #[trigger] y_vals(start, width, n)[p] <= area,
{
    assert forall|p: int| 0 <= p < n implies 0 <= #[trigger] y_vals(start, width, n)[p] <= area by {
        assert((start + p) / width <= start + p) by (nonlinear_arith)
            requires
                0 < width,
                0 <= start + p,
        ;
        assert(0 <= (start + p) / width) by (nonlinear_arith)
            requires
                0 < width,
                0 <= start + p,
        ;
    }
}

} // verus!
