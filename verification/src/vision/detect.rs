//! Finding the card in a frame, on the reduced frame's whole pixels.
//!
//! The scanning flow asks for one card on a plain, mid-tone background, so the card is simply
//! the large foreground region: the background level is read off the frame's border, pixels far
//! enough from it are foreground, the largest connected blob of them is the card, and its
//! extreme points are its corners. Reducing the frame first and checking the shape found are
//! geometry in floating point, done by the application.

use vstd::prelude::*;
use vstd::arithmetic::div_mod::lemma_fundamental_div_mod_converse;

verus! {

/// Working width a frame is reduced to before anything else. Detection needs the outline, not
/// the detail.
pub const WORKING_WIDTH: u32 = 320;

/// How far from the background a pixel must be to count as foreground.
///
/// Calibrated against real card photographs: below about 18 the mask starts catching sensor
/// noise, above 40 it starts losing the card's darker regions.
pub const DEFAULT_CONTRAST: u8 = 24;

/// Width of the band around the frame's edge that is sampled for the background: a twentieth
/// of the shorter side, and at least one pixel.
pub open spec fn border_width(width: int, height: int) -> int {
    let shorter = if width < height { width } else { height };
    if shorter / 20 >= 1 {
        shorter / 20
    } else {
        1
    }
}

/// Whether the pixel at row-major position `p` lies in the border band.
pub open spec fn on_border(p: int, width: int, height: int) -> bool {
    let x = p % width;
    let y = p / width;
    let b = border_width(width, height);
    x < b || y < b || x >= width - b || y >= height - b
}

/// The border pixels among the first `n` positions, in scan order.
pub open spec fn border_samples(pixels: Seq<u8>, width: int, height: int, n: int) -> Seq<u8>
    decreases n,
{
    if n <= 0 {
        Seq::empty()
    } else {
        let rest = border_samples(pixels, width, height, n - 1);
        if on_border(n - 1, width, height) {
            rest.push(pixels[n - 1])
        } else {
            rest
        }
    }
}

/// How many of `s` are below `v`.
pub open spec fn count_below(s: Seq<u8>, v: int) -> nat
    decreases s.len(),
{
    if s.len() == 0 {
        0
    } else {
        count_below(s.drop_last(), v) + if s.last() < v {
            1nat
        } else {
            0nat
        }
    }
}

/// `m` is what sorting `s` puts at the middle position, `s.len() / 2`: fewer than that many
/// samples lie below it, and more than that many lie at or below it.
pub open spec fn is_median(s: Seq<u8>, m: u8) -> bool {
    count_below(s, m as int) <= s.len() / 2 < count_below(s, m + 1)
}

proof fn lemma_count_below_push(s: Seq<u8>, x: u8, v: int)
    ensures
        count_below(s.push(x), v) == count_below(s, v) + if x < v {
            1nat
        } else {
            0nat
        },
{
    assert(s.push(x).drop_last() =~= s);
}

proof fn lemma_count_below_all(s: Seq<u8>)
    ensures
        count_below(s, 256) == s.len(),
        count_below(s, 0) == 0,
    decreases s.len(),
{
    if s.len() > 0 {
        lemma_count_below_all(s.drop_last());
    }
}

proof fn lemma_count_below_mono(s: Seq<u8>, v: int, w: int)
    requires
        v <= w,
    ensures
        count_below(s, v) <= count_below(s, w),
    decreases s.len(),
{
    if s.len() > 0 {
        lemma_count_below_mono(s.drop_last(), v, w);
    }
}

/// The background level: the median brightness of the frame's border band.
///
/// The border is background when the card is in the middle of the shot, and a median rather
/// than a mean so that a bright corner or a shadow does not drag the estimate. A frame with no
/// border samples reads as black.
pub fn background_level(pixels: &[u8], width: u32, height: u32) -> (r: u8)
    requires
        pixels@.len() >= width * height,
        width * height <= usize::MAX,
    ensures
        ({
            let s = border_samples(pixels@, width as int, height as int, width * height);
            if s.len() == 0 {
                r == 0
            } else {
                is_median(s, r)
            }
        }),
{
    let n: usize = (width as u64 * height as u64) as usize;
    let ghost w = width as int;
    let ghost h = height as int;
    let shorter = if width < height { width } else { height };
    let border: u32 = if shorter / 20 >= 1 { shorter / 20 } else { 1 };
    // How many border samples there are of each brightness.
    let mut histogram: Vec<u64> = Vec::new();
    let mut v: usize = 0;
    while v < 256
        invariant
            v <= 256,
            histogram@.len() == v,
            forall|u: int| 0 <= u < v ==> histogram@[u] == 0,
        decreases 256 - v,
    {
        histogram.push(0);
        v = v + 1;
    }
    proof {
        assert forall|u: int| 0 <= u <= 256 implies count_below(border_samples(pixels@, w, h, 0), u)
            == #[trigger] prefix_total(histogram@, u) by {
            lemma_prefix_total_zero(histogram@, u);
        }
    }
    let mut total: u64 = 0;
    let mut p: usize = 0;
    while p < n
        invariant
            n == width * height,
            pixels@.len() >= n,
            border == border_width(w, h),
            w == width,
            h == height,
            p <= n,
            histogram@.len() == 256,
            total == border_samples(pixels@, w, h, p as int).len(),
            total <= p,
            forall|u: int| 0 <= u <= 256 ==> count_below(border_samples(pixels@, w, h, p as int), u)
                == #[trigger] prefix_total(histogram@, u),
        decreases n - p,
    {
        proof {
            assert(width > 0) by (nonlinear_arith)
                requires p < n, n == width * height;
        }
        let xx: u64 = p as u64 % width as u64;
        let yy: u64 = p as u64 / width as u64;
        proof {
            assert(yy < height) by (nonlinear_arith)
                requires p < width * height, yy == (p as int) / (width as int), width > 0;
            assert(xx < width);
        }
        let x = xx as u32;
        let y = yy as u32;
        assert(x == (p as int) % w && y == (p as int) / w);
        let ghost before = border_samples(pixels@, w, h, p as int);
        if x < border || y < border || x >= width - border || y >= height - border {
            let value = pixels[p];
            let ghost old_hist = histogram@;
            let c = histogram[value as usize];
            proof {
                lemma_prefix_total_bound(histogram@, value as int);
                lemma_count_below_all(before);
                assert(prefix_total(histogram@, 256) == total);
            }
            histogram.set(value as usize, c + 1);
            total = total + 1;
            proof {
                assert(border_samples(pixels@, w, h, p + 1) == before.push(value));
                assert forall|u: int| 0 <= u <= 256 implies count_below(border_samples(pixels@, w, h, p + 1), u)
                    == #[trigger] prefix_total(histogram@, u) by {
                    lemma_count_below_push(before, value, u);
                    lemma_prefix_total_bump(old_hist, histogram@, value as int, u);
                }
            }
        } else {
            assert(border_samples(pixels@, w, h, p + 1) == before);
        }
        p = p + 1;
    }
    let ghost s = border_samples(pixels@, w, h, n as int);
    if total == 0 {
        return 0;
    }
    proof {
        lemma_count_below_all(s);
    }
    let half = total / 2;
    let mut below: u64 = 0;
    let mut m: usize = 0;
    while m < 255 && (below as u128) + (histogram[m] as u128) <= half as u128
        invariant
            histogram@.len() == 256,
            total == s.len(),
            half == s.len() / 2,
            m <= 255,
            below == prefix_total(histogram@, m as int),
            below <= half,
            forall|u: int| 0 <= u <= 256 ==> count_below(s, u) == #[trigger] prefix_total(histogram@, u),
        decreases 255 - m,
    {
        below = below + histogram[m];
        m = m + 1;
    }
    proof {
        assert(prefix_total(histogram@, m + 1) == below + histogram@[m as int]);
        if m == 255 {
            assert(prefix_total(histogram@, 256) == s.len());
        }
    }
    m as u8
}

proof fn lemma_prefix_total_zero(hist: Seq<u64>, u: int)
    requires
        0 <= u <= hist.len(),
        forall|k: int| 0 <= k < hist.len() ==> hist[k] == 0,
    ensures
        prefix_total(hist, u) == 0,
    decreases u,
{
    if u > 0 {
        lemma_prefix_total_zero(hist, u - 1);
    }
}

/// The first `u` counts of a histogram, added up.
pub open spec fn prefix_total(hist: Seq<u64>, u: int) -> nat
    decreases u,
{
    if u <= 0 {
        0
    } else {
        prefix_total(hist, u - 1) + hist[u - 1] as nat
    }
}

proof fn lemma_prefix_total_bound(hist: Seq<u64>, v: int)
    requires
        0 <= v < hist.len(),
    ensures
        hist[v] <= prefix_total(hist, hist.len() as int),
    decreases hist.len(),
{
    lemma_prefix_total_split(hist, v);
}

proof fn lemma_prefix_total_split(hist: Seq<u64>, v: int)
    requires
        0 <= v < hist.len(),
    ensures
        prefix_total(hist, v + 1) <= prefix_total(hist, hist.len() as int),
        hist[v] <= prefix_total(hist, v + 1),
{
    lemma_prefix_total_mono(hist, v + 1, hist.len() as int);
}

proof fn lemma_prefix_total_mono(hist: Seq<u64>, a: int, b: int)
    requires
        0 <= a <= b,
    ensures
        prefix_total(hist, a) <= prefix_total(hist, b),
    decreases b - a,
{
    if a < b {
        lemma_prefix_total_mono(hist, a, b - 1);
    }
}

proof fn lemma_prefix_total_bump(old_hist: Seq<u64>, new_hist: Seq<u64>, v: int, u: int)
    requires
        0 <= v < old_hist.len(),
        new_hist == old_hist.update(v, (old_hist[v] + 1) as u64),
        old_hist[v] < u64::MAX,
        0 <= u <= old_hist.len(),
    ensures
        prefix_total(new_hist, u) == prefix_total(old_hist, u) + if v < u {
            1nat
        } else {
            0nat
        },
    decreases u,
{
    if u > 0 {
        lemma_prefix_total_bump(old_hist, new_hist, v, u - 1);
    }
}

/// Marks the pixels that differ from the background by at least `contrast`.
pub fn foreground_mask(pixels: &[u8], background: u8, contrast: u8) -> (r: Vec<bool>)
    ensures
        r@.len() == pixels@.len(),
        forall|i: int| 0 <= i < pixels@.len() ==> r@[i] == (#[trigger] distance(pixels@[i], background) >= contrast),
{
    let mut out: Vec<bool> = Vec::new();
    let mut i: usize = 0;
    while i < pixels.len()
        invariant
            i <= pixels@.len(),
            out@.len() == i,
            forall|k: int| 0 <= k < i ==> out@[k] == (#[trigger] distance(pixels@[k], background) >= contrast),
        decreases pixels@.len() - i,
    {
        let p = pixels[i];
        let d = if p >= background { p - background } else { background - p };
        out.push(d >= contrast);
        i = i + 1;
    }
    out
}

/// How far apart two brightnesses are.
pub open spec fn distance(a: u8, b: u8) -> int {
    if a >= b {
        a - b
    } else {
        b - a
    }
}

/// The point of `region` at `i` comes first among those where `key` is smallest.
pub open spec fn first_least(region: Seq<(u32, u32)>, key: spec_fn((u32, u32)) -> int, i: int) -> bool {
    &&& 0 <= i < region.len()
    &&& forall|j: int| 0 <= j < region.len() ==> key(region[i]) <= key(#[trigger] region[j])
    &&& forall|j: int| 0 <= j < i ==> key(#[trigger] region[j]) > key(region[i])
}

pub open spec fn sum_key() -> spec_fn((u32, u32)) -> int {
    |p: (u32, u32)| p.0 + p.1
}

pub open spec fn negated_sum_key() -> spec_fn((u32, u32)) -> int {
    |p: (u32, u32)| -(p.0 + p.1)
}

pub open spec fn difference_key() -> spec_fn((u32, u32)) -> int {
    |p: (u32, u32)| p.1 - p.0
}

pub open spec fn negated_difference_key() -> spec_fn((u32, u32)) -> int {
    |p: (u32, u32)| p.0 - p.1
}

proof fn lemma_first_least_step(region: Seq<(u32, u32)>, key: spec_fn((u32, u32)) -> int, k: int, i: int, next: int)
    requires
        0 < k < region.len(),
        first_least(region.take(k), key, i),
        next == if key(region[k]) < key(region[i]) {
            k
        } else {
            i
        },
    ensures
        first_least(region.take(k + 1), key, next),
{
    let before = region.take(k);
    let after = region.take(k + 1);
    assert forall|j: int| 0 <= j < k implies after[j] == #[trigger] before[j] by {}
    assert(after[k] == region[k]);
    assert(forall|j: int| 0 <= j < k ==> key(before[i]) <= key(#[trigger] before[j]));
}

/// The four corners of a region: top-left, top-right, bottom-right, bottom-left.
///
/// The extreme points of `x + y` and `y - x` are the corners of a rotated rectangle: the
/// smallest sum is the top-left, the largest the bottom-right, and the difference separates the
/// other two. Where several points tie, the first in the region's order is kept.
pub fn corners_of(region: &[(u32, u32)]) -> (r: [(u32, u32); 4])
    requires
        region@.len() > 0,
    ensures
        exists|i: int| first_least(region@, sum_key(), i) && r[0] == region@[i],
        exists|i: int| first_least(region@, difference_key(), i) && r[1] == region@[i],
        exists|i: int| first_least(region@, negated_sum_key(), i) && r[2] == region@[i],
        exists|i: int| first_least(region@, negated_difference_key(), i) && r[3] == region@[i],
{
    let mut tl: usize = 0;
    let mut tr: usize = 0;
    let mut br: usize = 0;
    let mut bl: usize = 0;
    let mut k: usize = 1;
    proof {
        let first = region@.take(1);
        assert(first.len() == 1);
    }
    while k < region.len()
        invariant
            1 <= k <= region@.len(),
            first_least(region@.take(k as int), sum_key(), tl as int),
            first_least(region@.take(k as int), difference_key(), tr as int),
            first_least(region@.take(k as int), negated_sum_key(), br as int),
            first_least(region@.take(k as int), negated_difference_key(), bl as int),
        decreases region@.len() - k,
    {
        let (x, y) = region[k];
        let sum = x as i64 + y as i64;
        let difference = y as i64 - x as i64;
        let ghost (otl, otr, obr, obl) = (tl as int, tr as int, br as int, bl as int);
        if sum < region[tl].0 as i64 + region[tl].1 as i64 {
            tl = k;
        }
        if sum > region[br].0 as i64 + region[br].1 as i64 {
            br = k;
        }
        if difference < region[tr].1 as i64 - region[tr].0 as i64 {
            tr = k;
        }
        if difference > region[bl].1 as i64 - region[bl].0 as i64 {
            bl = k;
        }
        proof {
            lemma_first_least_step(region@, sum_key(), k as int, otl, tl as int);
            lemma_first_least_step(region@, difference_key(), k as int, otr, tr as int);
            lemma_first_least_step(region@, negated_sum_key(), k as int, obr, br as int);
            lemma_first_least_step(region@, negated_difference_key(), k as int, obl, bl as int);
        }
        k = k + 1;
    }
    assert(region@.take(k as int) =~= region@);
    [region[tl], region[tr], region[br], region[bl]]
}


/// Column of the pixel at row-major position `p` in a frame `width` wide.
pub open spec fn col(p: int, width: int) -> int {
    p % width
}

/// Row of the pixel at row-major position `p`.
pub open spec fn row(p: int, width: int) -> int {
    p / width
}

/// Two pixels of a `width` by `height` frame share a side.
pub open spec fn adjacent(p: int, q: int, width: int, height: int) -> bool {
    &&& 0 <= p < width * height
    &&& 0 <= q < width * height
    &&& ((row(p, width) == row(q, width) && (col(p, width) == col(q, width) + 1 || col(q, width) == col(p, width) + 1))
        || (col(p, width) == col(q, width) && (row(p, width) == row(q, width) + 1 || row(q, width) == row(p, width) + 1)))
}

/// A walk through foreground pixels, each step to a pixel sharing a side.
pub open spec fn is_walk(mask: Seq<bool>, width: int, height: int, path: Seq<int>) -> bool {
    &&& path.len() > 0
    &&& forall|i: int| 0 <= i < path.len() ==> 0 <= #[trigger] path[i] < mask.len() && mask[path[i]]
    &&& forall|i: int| 0 <= i < path.len() - 1 ==> adjacent(#[trigger] path[i], path[i + 1], width, height)
}

/// A walk through foreground pixels leads from `a` to `b`.
pub open spec fn connected(mask: Seq<bool>, width: int, height: int, a: int, b: int) -> bool {
    exists|path: Seq<int>| #[trigger] is_walk(mask, width, height, path) && path[0] == a && path.last() == b
}

/// The connected blob of foreground pixels that `a` belongs to.
pub open spec fn blob(mask: Seq<bool>, width: int, height: int, a: int) -> Set<int> {
    Set::new(|b: int| connected(mask, width, height, a, b))
}

/// Row-major position of a point.
pub open spec fn position(pt: (u32, u32), width: int) -> int {
    pt.1 * width + pt.0
}

/// Row-major positions of the points of a region.
pub open spec fn positions(region: Seq<(u32, u32)>, width: int) -> Seq<int> {
    region.map_values(|pt: (u32, u32)| position(pt, width))
}

/// A set of pixels that no foreground neighbour of its members lies outside.
pub open spec fn closed(mask: Seq<bool>, width: int, height: int, set: Set<int>) -> bool {
    forall|p: int, q: int| #[trigger] set.contains(p) && 0 <= q < mask.len() && mask[q] && #[trigger] adjacent(p, q, width, height) ==> set.contains(q)
}

proof fn lemma_coordinates(x: int, y: int, width: int, height: int)
    requires
        0 <= x < width,
        0 <= y < height,
    ensures
        0 <= y * width + x < width * height,
        row(y * width + x, width) == y,
        col(y * width + x, width) == x,
{
    assert(0 <= y * width + x < width * height) by (nonlinear_arith)
        requires 0 <= x < width, 0 <= y < height;
    lemma_fundamental_div_mod_converse(y * width + x, width, y, x);
}

proof fn lemma_split(p: int, width: int, height: int)
    requires
        0 <= p < width * height,
        width > 0,
    ensures
        0 <= col(p, width) < width,
        0 <= row(p, width) < height,
        p == row(p, width) * width + col(p, width),
{
    assert(row(p, width) * width + col(p, width) == p) by (nonlinear_arith)
        requires width > 0, row(p, width) == p / width, col(p, width) == p % width;
    assert(row(p, width) < height) by (nonlinear_arith)
        requires 0 <= p < width * height, width > 0, row(p, width) == p / width;
    assert(0 <= row(p, width)) by (nonlinear_arith)
        requires 0 <= p, width > 0, row(p, width) == p / width;
}

/// The positions sharing a side with `p`: left, right, above, below, as far as the frame goes.
fn neighbours(p: usize, width: u32, height: u32) -> (r: Vec<usize>)
    requires
        p < width * height,
        width * height <= u32::MAX,
    ensures
        forall|k: int| 0 <= k < r@.len() ==> adjacent(p as int, #[trigger] r@[k] as int, width as int, height as int),
        forall|q: int| adjacent(p as int, q, width as int, height as int) ==> exists|k: int| 0 <= k < r@.len() && #[trigger] r@[k] == q,
{
    let ghost w = width as int;
    let ghost h = height as int;
    proof {
        assert(width > 0) by (nonlinear_arith)
            requires p < width * height;
        lemma_split(p as int, w, h);
    }
    let x: u32 = (p as u32) % width;
    let y: u32 = (p as u32) / width;
    let mut out: Vec<usize> = Vec::new();
    let ghost left = y * w + (x - 1);
    let ghost right = y * w + (x + 1);
    let ghost up = (y - 1) * w + x;
    let ghost down = (y + 1) * w + x;
    let ghost (mut kl, mut kr, mut ku, mut kd) = (0int, 0int, 0int, 0int);
    if x > 0 {
        proof { lemma_coordinates(x - 1, y as int, w, h); kl = out@.len() as int; }
        out.push((y as usize) * (width as usize) + (x - 1) as usize);
    }
    if x + 1 < width {
        proof { lemma_coordinates(x + 1, y as int, w, h); kr = out@.len() as int; }
        out.push((y as usize) * (width as usize) + (x + 1) as usize);
    }
    if y > 0 {
        proof { lemma_coordinates(x as int, y - 1, w, h); ku = out@.len() as int; }
        out.push(((y - 1) as usize) * (width as usize) + x as usize);
    }
    if y + 1 < height {
        proof { lemma_coordinates(x as int, y + 1, w, h); kd = out@.len() as int; }
        out.push(((y + 1) as usize) * (width as usize) + x as usize);
    }
    proof {
        if x > 0 {
            assert(0 <= kl < out@.len() && out@[kl] == left);
        }
        if x + 1 < width {
            assert(0 <= kr < out@.len() && out@[kr] == right);
        }
        if y > 0 {
            assert(0 <= ku < out@.len() && out@[ku] == up);
        }
        if y + 1 < height {
            assert(0 <= kd < out@.len() && out@[kd] == down);
        }
        assert forall|q: int| adjacent(p as int, q, w, h) implies exists|k: int| 0 <= k < out@.len() && #[trigger] out@[k] == q by {
            lemma_split(q, w, h);
            let qx = col(q, w);
            let qy = row(q, w);
            if qy == y && qx + 1 == x {
                assert(out@[kl] == q);
            } else if qy == y && qx == x + 1 {
                assert(out@[kr] == q);
            } else if qx == x && qy + 1 == y {
                assert(out@[ku] == q);
            } else {
                assert(out@[kd] == q);
            }
        }
    }
    out
}

/// The pixels a visited-map marks.
pub open spec fn marked(visited: Seq<bool>) -> Set<int> {
    Set::new(|p: int| 0 <= p < visited.len() && visited[p])
}

proof fn lemma_connected_self(mask: Seq<bool>, width: int, height: int, a: int)
    requires
        0 <= a < mask.len(),
        mask[a],
    ensures
        connected(mask, width, height, a, a),
{
    let path = seq![a];
    assert(is_walk(mask, width, height, path));
}

proof fn lemma_connected_extend(mask: Seq<bool>, width: int, height: int, a: int, p: int, q: int)
    requires
        connected(mask, width, height, a, p),
        adjacent(p, q, width, height),
        0 <= q < mask.len(),
        mask[q],
    ensures
        connected(mask, width, height, a, q),
{
    let path = choose|path: Seq<int>| #[trigger] is_walk(mask, width, height, path) && path[0] == a && path.last() == p;
    let longer = path.push(q);
    assert(longer[longer.len() - 2] == p);
    assert forall|i: int| 0 <= i < longer.len() - 1 implies adjacent(#[trigger] longer[i], longer[i + 1], width, height) by {
        if i < path.len() - 1 {
            assert(longer[i] == path[i] && longer[i + 1] == path[i + 1]);
        }
    }
    assert(is_walk(mask, width, height, longer));
}

proof fn lemma_walk_stays(mask: Seq<bool>, width: int, height: int, set: Set<int>, path: Seq<int>)
    requires
        closed(mask, width, height, set),
        is_walk(mask, width, height, path),
        set.contains(path[0]),
    ensures
        set.contains(path.last()),
    decreases path.len(),
{
    if path.len() > 1 {
        let shorter = path.drop_last();
        assert forall|i: int| 0 <= i < shorter.len() - 1 implies adjacent(#[trigger] shorter[i], shorter[i + 1], width, height) by {
            assert(shorter[i] == path[i] && shorter[i + 1] == path[i + 1]);
        }
        assert(is_walk(mask, width, height, shorter));
        lemma_walk_stays(mask, width, height, set, shorter);
        let p = path[path.len() - 2];
        let q = path.last();
        assert(adjacent(p, q, width, height));
        assert(set.contains(p));
    }
}

/// A closed set holding `a` holds the whole of `a`'s blob.
proof fn lemma_blob_within(mask: Seq<bool>, width: int, height: int, set: Set<int>, a: int)
    requires
        closed(mask, width, height, set),
        set.contains(a),
    ensures
        blob(mask, width, height, a).subset_of(set),
{
    assert forall|b: int| blob(mask, width, height, a).contains(b) implies set.contains(b) by {
        let path = choose|path: Seq<int>| #[trigger] is_walk(mask, width, height, path) && path[0] == a && path.last() == b;
        lemma_walk_stays(mask, width, height, set, path);
    }
}

/// Marks and stacks every foreground neighbour not yet marked.
fn visit_all(mask: &[bool], visited: &mut Vec<bool>, stack: &mut Vec<usize>, nbs: &Vec<usize>)
    requires
        old(visited)@.len() == mask@.len(),
        forall|k: int| 0 <= k < nbs@.len() ==> #[trigger] nbs@[k] < mask@.len(),
    ensures
        final(visited)@.len() == old(visited)@.len(),
        forall|p: int| 0 <= p < mask@.len() ==> #[trigger] final(visited)@[p] == (old(visited)@[p] || (mask@[p]
            && exists|k: int| 0 <= k < nbs@.len() && nbs@[k] == p)),
        final(stack)@.len() >= old(stack)@.len(),
        final(stack)@.subrange(0, old(stack)@.len() as int) == old(stack)@,
        forall|j: int| old(stack)@.len() <= j < final(stack)@.len() ==> {
            &&& #[trigger] final(stack)@[j] < mask@.len()
            &&& mask@[final(stack)@[j] as int]
            &&& !old(visited)@[final(stack)@[j] as int]
            &&& exists|k: int| 0 <= k < nbs@.len() && nbs@[k] == final(stack)@[j]
        },
        forall|i: int, j: int| old(stack)@.len() <= i < j < final(stack)@.len() ==> #[trigger] final(stack)@[i] != #[trigger] final(stack)@[j],
        forall|p: int| 0 <= p < mask@.len() && mask@[p] && !old(visited)@[p] && (exists|k: int| 0 <= k < nbs@.len() && nbs@[k] == p)
            ==> exists|j: int| old(stack)@.len() <= j < final(stack)@.len() && #[trigger] final(stack)@[j] == p,
{
    let ghost v0 = visited@;
    let ghost s0 = stack@;
    let mut k: usize = 0;
    while k < nbs.len()
        invariant
            v0 == old(visited)@,
            s0 == old(stack)@,
            v0.len() == mask@.len(),
            visited@.len() == v0.len(),
            forall|k: int| 0 <= k < nbs@.len() ==> #[trigger] nbs@[k] < mask@.len(),
            k <= nbs@.len(),
            forall|p: int| 0 <= p < mask@.len() ==> #[trigger] visited@[p] == (v0[p] || (mask@[p]
                && exists|i: int| 0 <= i < k && nbs@[i] == p)),
            stack@.len() >= s0.len(),
            stack@.subrange(0, s0.len() as int) == s0,
            forall|j: int| s0.len() <= j < stack@.len() ==> {
                &&& #[trigger] stack@[j] < mask@.len()
                &&& mask@[stack@[j] as int]
                &&& !v0[stack@[j] as int]
                &&& visited@[stack@[j] as int]
                &&& exists|i: int| 0 <= i < k && nbs@[i] == stack@[j]
            },
            forall|i: int, j: int| s0.len() <= i < j < stack@.len() ==> #[trigger] stack@[i] != #[trigger] stack@[j],
            forall|p: int| 0 <= p < mask@.len() && mask@[p] && !v0[p] && (exists|i: int| 0 <= i < k && nbs@[i] == p)
                ==> exists|j: int| s0.len() <= j < stack@.len() && #[trigger] stack@[j] == p,
        decreases nbs@.len() - k,
    {
        let nb = nbs[k];
        let ghost before_stack = stack@;
        let ghost before_visited = visited@;
        if mask[nb] && !visited[nb] {
            visited.set(nb, true);
            stack.push(nb);
            proof {
                assert(stack@.subrange(0, s0.len() as int) =~= before_stack.subrange(0, s0.len() as int));
                assert forall|j: int| s0.len() <= j < stack@.len() implies {
                    &&& #[trigger] stack@[j] < mask@.len()
                    &&& mask@[stack@[j] as int]
                    &&& !v0[stack@[j] as int]
                    &&& visited@[stack@[j] as int]
                    &&& exists|i: int| 0 <= i < k + 1 && nbs@[i] == stack@[j]
                } by {
                    if j < before_stack.len() {
                        assert(stack@[j] == before_stack[j]);
                        let i = choose|i: int| 0 <= i < k && nbs@[i] == before_stack[j];
                        assert(nbs@[i] == stack@[j]);
                    } else {
                        assert(nbs@[k as int] == stack@[j]);
                    }
                }
                assert forall|i: int, j: int| s0.len() <= i < j < stack@.len() implies #[trigger] stack@[i] != #[trigger] stack@[j] by {
                    if j == before_stack.len() {
                        assert(before_visited[stack@[i] as int]);
                    }
                }
            }
        }
        proof {
            assert forall|p: int| 0 <= p < mask@.len() && mask@[p] && !v0[p] && (exists|i: int| 0 <= i < k + 1 && nbs@[i] == p)
                implies exists|j: int| s0.len() <= j < stack@.len() && #[trigger] stack@[j] == p by {
                let i = choose|i: int| 0 <= i < k + 1 && nbs@[i] == p;
                if i < k {
                    let j = choose|j: int| s0.len() <= j < before_stack.len() && #[trigger] before_stack[j] == p;
                    assert(stack@[j] == before_stack[j]);
                } else if before_visited[p] {
                    let i2 = choose|i2: int| 0 <= i2 < k && nbs@[i2] == p;
                    let j = choose|j: int| s0.len() <= j < before_stack.len() && #[trigger] before_stack[j] == p;
                    assert(stack@[j] == before_stack[j]);
                } else {
                    assert(stack@[before_stack.len() as int] == p);
                }
            }
            assert forall|p: int| 0 <= p < mask@.len() implies #[trigger] visited@[p] == (v0[p] || (mask@[p]
                && exists|i: int| 0 <= i < k + 1 && nbs@[i] == p)) by {
                if mask@[p] && nbs@[k as int] == p {
                    assert(visited@[p]);
                }
                if exists|i: int| 0 <= i < k && nbs@[i] == p {
                    let i = choose|i: int| 0 <= i < k && nbs@[i] == p;
                    assert(0 <= i < k + 1 && nbs@[i] == p);
                }
                if exists|i: int| 0 <= i < k + 1 && nbs@[i] == p {
                    let i = choose|i: int| 0 <= i < k + 1 && nbs@[i] == p;
                    if i < k {
                        assert(exists|i: int| 0 <= i < k && nbs@[i] == p);
                    }
                }
            }
        }
        k = k + 1;
    }
}

/// Fills the blob of foreground pixels around `start`, marking each pixel as it is reached.
///
/// Filled iteratively with a stack rather than recursively: a region can cover most of a frame,
/// and recursion at that depth overflows the stack.
fn flood(mask: &[bool], width: u32, height: u32, visited: &mut Vec<bool>, start: usize) -> (r: Vec<(u32, u32)>)
    requires
        mask@.len() == width * height,
        width * height <= u32::MAX,
        old(visited)@.len() == mask@.len(),
        start < mask@.len(),
        mask@[start as int],
        !old(visited)@[start as int],
        forall|p: int| 0 <= p < mask@.len() && #[trigger] old(visited)@[p] ==> mask@[p],
        closed(mask@, width as int, height as int, marked(old(visited)@)),
    ensures
        r@.len() > 0,
        positions(r@, width as int)[0] == start,
        positions(r@, width as int).no_duplicates(),
        forall|k: int| 0 <= k < r@.len() ==> (#[trigger] r@[k]).0 < width && r@[k].1 < height,
        positions(r@, width as int).to_set() == blob(mask@, width as int, height as int, start as int),
        closed(mask@, width as int, height as int, positions(r@, width as int).to_set()),
        final(visited)@.len() == mask@.len(),
        forall|p: int| 0 <= p < mask@.len() ==> #[trigger] final(visited)@[p] == (old(visited)@[p]
            || positions(r@, width as int).contains(p)),
        forall|p: int| 0 <= p < mask@.len() && #[trigger] final(visited)@[p] ==> mask@[p],
        closed(mask@, width as int, height as int, marked(final(visited)@)),
{
    let ghost w = width as int;
    let ghost h = height as int;
    let ghost n = mask@.len() as int;
    let ghost v0 = visited@;
    let mut region: Vec<(u32, u32)> = Vec::new();
    let mut stack: Vec<usize> = Vec::new();
    visited.set(start, true);
    stack.push(start);
    proof {
        lemma_connected_self(mask@, w, h, start as int);
        assert(positions(region@, w) =~= Seq::<int>::empty());
        assert forall|p: int| 0 <= p < n implies #[trigger] visited@[p] == (v0[p] || positions(region@, w).contains(p)
            || exists|j: int| 0 <= j < stack@.len() && stack@[j] == p) by {
            if p == start {
                assert(stack@[0] == p);
            }
        }
    }
    while stack.len() > 0
        invariant
            w == width,
            h == height,
            n == mask@.len(),
            n == width * height,
            width * height <= u32::MAX,
            v0 == old(visited)@,
            v0.len() == n,
            start < n,
            forall|p: int| 0 <= p < n && #[trigger] v0[p] ==> mask@[p],
            closed(mask@, w, h, marked(v0)),
            visited@.len() == n,
            forall|p: int| 0 <= p < n && #[trigger] visited@[p] ==> mask@[p],
            forall|p: int| 0 <= p < n ==> #[trigger] visited@[p] == (v0[p] || positions(region@, w).contains(p)
                || exists|j: int| 0 <= j < stack@.len() && stack@[j] == p),
            positions(region@, w).no_duplicates(),
            forall|i: int, j: int| 0 <= i < j < stack@.len() ==> #[trigger] stack@[i] != #[trigger] stack@[j],
            forall|i: int, j: int| 0 <= i < region@.len() && 0 <= j < stack@.len() ==> #[trigger] positions(region@, w)[i] != #[trigger] stack@[j],
            forall|i: int| 0 <= i < region@.len() ==> !v0[#[trigger] positions(region@, w)[i]],
            forall|j: int| 0 <= j < stack@.len() ==> #[trigger] stack@[j] < n && !v0[stack@[j] as int],
            forall|i: int| 0 <= i < region@.len() ==> connected(mask@, w, h, start as int, #[trigger] positions(region@, w)[i]),
            forall|j: int| 0 <= j < stack@.len() ==> connected(mask@, w, h, start as int, #[trigger] stack@[j] as int),
            forall|i: int, q: int| 0 <= i < region@.len() && 0 <= q < n && mask@[q] && #[trigger] adjacent(#[trigger] positions(region@, w)[i], q, w, h) ==> visited@[q],
            region@.len() == 0 ==> stack@ == seq![start],
            region@.len() > 0 ==> positions(region@, w)[0] == start,
            forall|k: int| 0 <= k < region@.len() ==> (#[trigger] region@[k]).0 < width && region@[k].1 < height,
        decreases n - region@.len(),
    {
        let ghost s_pre = stack@;
        let ghost r_pre = positions(region@, w);
        let ghost vis_pre = visited@;
        let index = match stack.pop() {
            Some(i) => i,
            None => 0,
        };
        let ghost popped_stack = stack@;
        assert(index == s_pre.last() && popped_stack =~= s_pre.drop_last());
        proof {
            assert(width > 0) by (nonlinear_arith)
                requires index < width * height;
            lemma_split(index as int, w, h);
        }
        let x: u32 = (index as u32) % width;
        let y: u32 = (index as u32) / width;
        let ghost before_region = region@;
        region.push((x, y));
        proof {
            assert(positions(region@, w) =~= positions(before_region, w).push(index as int));
        }
        let nbs = neighbours(index, width, height);
        let ghost visited_before = visited@;
        let ghost stack_before = stack@;
        visit_all(mask, visited, &mut stack, &nbs);
        proof {
            lemma_flood_step(mask@, w, h, start as int, v0, s_pre, r_pre, vis_pre, index as int,
                popped_stack, positions(region@, w), nbs@, visited@, stack@);
            lemma_distinct_bound(positions(region@, w) + stack@.map_values(|u: usize| u as int), n);
        }
    }
    proof {
        let rs = positions(region@, w);
        assert forall|p: int| 0 <= p < n implies #[trigger] visited@[p] == (v0[p] || rs.contains(p)) by {
            if rs.contains(p) {
                let i = choose|i: int| 0 <= i < rs.len() && rs[i] == p;
                assert(rs[i] == p);
            }
        }
        assert(closed(mask@, w, h, marked(visited@))) by {
            assert forall|p: int, q: int| #[trigger] marked(visited@).contains(p) && 0 <= q < n && mask@[q] && #[trigger] adjacent(p, q, w, h)
                implies marked(visited@).contains(q) by {
                if v0[p] {
                    assert(marked(v0).contains(p));
                } else {
                    let i = choose|i: int| 0 <= i < rs.len() && rs[i] == p;
                    assert(adjacent(rs[i], q, w, h));
                }
            }
        }
        assert(closed(mask@, w, h, rs.to_set())) by {
            assert forall|p: int, q: int| #[trigger] rs.to_set().contains(p) && 0 <= q < n && mask@[q] && #[trigger] adjacent(p, q, w, h)
                implies rs.to_set().contains(q) by {
                let i = choose|i: int| 0 <= i < rs.len() && rs[i] == p;
                assert(adjacent(rs[i], q, w, h));
                assert(visited@[q]);
                if v0[q] {
                    assert(adjacent(q, p, w, h));
                    assert(marked(v0).contains(q));
                    assert(visited@[p]);
                    assert(v0[rs[i]]);
                }
            }
        }
        assert(rs.to_set() =~= blob(mask@, w, h, start as int)) by {
            assert(rs[0] == start);
            assert(rs.to_set().contains(start as int));
            lemma_blob_within(mask@, w, h, rs.to_set(), start as int);
            assert forall|b: int| rs.to_set().contains(b) implies blob(mask@, w, h, start as int).contains(b) by {
                let i = choose|i: int| 0 <= i < rs.len() && rs[i] == b;
                assert(connected(mask@, w, h, start as int, rs[i]));
            }
        }
    }
    region
}

proof fn lemma_distinct_bound(s: Seq<int>, n: int)
    requires
        0 <= n,
        s.no_duplicates(),
        forall|i: int| 0 <= i < s.len() ==> 0 <= #[trigger] s[i] < n,
    ensures
        s.len() <= n,
{
    let range = Set::new(|p: int| 0 <= p < n);
    assert(range =~= vstd::set_lib::set_int_range(0, n));
    vstd::set_lib::lemma_int_range(0, n);
    s.unique_seq_to_set();
    assert(s.to_set().subset_of(range));
    vstd::set_lib::lemma_len_subset(s.to_set(), range);
}

/// One step of the flood: the pixel on top of the stack joins the region and its unmarked
/// foreground neighbours are marked and stacked. Everything the fill keeps true stays true.
proof fn lemma_flood_step(
    mask: Seq<bool>,
    w: int,
    h: int,
    start: int,
    v0: Seq<bool>,
    s_pre: Seq<usize>,
    r_pre: Seq<int>,
    vis_pre: Seq<bool>,
    index: int,
    popped: Seq<usize>,
    r_post: Seq<int>,
    nbs: Seq<usize>,
    vis_post: Seq<bool>,
    s_post: Seq<usize>,
)
    requires
        mask.len() == w * h,
        w > 0,
        0 <= start < mask.len(),
        v0.len() == mask.len(),
        vis_pre.len() == mask.len(),
        forall|p: int| 0 <= p < mask.len() && #[trigger] vis_pre[p] ==> mask[p],
        forall|p: int| 0 <= p < mask.len() ==> #[trigger] vis_pre[p] == (v0[p] || r_pre.contains(p)
            || exists|j: int| 0 <= j < s_pre.len() && s_pre[j] == p),
        r_pre.no_duplicates(),
        forall|i: int, j: int| 0 <= i < j < s_pre.len() ==> #[trigger] s_pre[i] != #[trigger] s_pre[j],
        forall|i: int, j: int| 0 <= i < r_pre.len() && 0 <= j < s_pre.len() ==> #[trigger] r_pre[i] != #[trigger] s_pre[j],
        forall|i: int| 0 <= i < r_pre.len() ==> !v0[#[trigger] r_pre[i]],
        forall|j: int| 0 <= j < s_pre.len() ==> #[trigger] s_pre[j] < mask.len() && !v0[s_pre[j] as int],
        forall|i: int| 0 <= i < r_pre.len() ==> connected(mask, w, h, start, #[trigger] r_pre[i]),
        forall|j: int| 0 <= j < s_pre.len() ==> connected(mask, w, h, start, #[trigger] s_pre[j] as int),
        forall|i: int, q: int| 0 <= i < r_pre.len() && 0 <= q < mask.len() && mask[q] && #[trigger] adjacent(#[trigger] r_pre[i], q, w, h) ==> vis_pre[q],
        r_pre.len() == 0 ==> s_pre.len() == 1 && s_pre[0] == start,
        r_pre.len() > 0 ==> r_pre[0] == start,
        s_pre.len() > 0,
        index == s_pre.last(),
        popped == s_pre.drop_last(),
        r_post == r_pre.push(index),
        forall|k: int| 0 <= k < nbs.len() ==> adjacent(index, #[trigger] nbs[k] as int, w, h),
        forall|q: int| adjacent(index, q, w, h) ==> exists|k: int| 0 <= k < nbs.len() && #[trigger] nbs[k] == q,
        vis_post.len() == vis_pre.len(),
        forall|p: int| 0 <= p < mask.len() ==> #[trigger] vis_post[p] == (vis_pre[p] || (mask[p]
            && exists|k: int| 0 <= k < nbs.len() && nbs[k] == p)),
        s_post.len() >= popped.len(),
        s_post.subrange(0, popped.len() as int) == popped,
        forall|j: int| popped.len() <= j < s_post.len() ==> {
            &&& #[trigger] s_post[j] < mask.len()
            &&& mask[s_post[j] as int]
            &&& !vis_pre[s_post[j] as int]
            &&& exists|k: int| 0 <= k < nbs.len() && nbs[k] == s_post[j]
        },
        forall|i: int, j: int| popped.len() <= i < j < s_post.len() ==> #[trigger] s_post[i] != #[trigger] s_post[j],
        forall|p: int| 0 <= p < mask.len() && mask[p] && !vis_pre[p] && (exists|k: int| 0 <= k < nbs.len() && nbs[k] == p)
            ==> exists|j: int| popped.len() <= j < s_post.len() && #[trigger] s_post[j] == p,
    ensures
        forall|p: int| 0 <= p < mask.len() && #[trigger] vis_post[p] ==> mask[p],
        forall|p: int| 0 <= p < mask.len() ==> #[trigger] vis_post[p] == (v0[p] || r_post.contains(p)
            || exists|j: int| 0 <= j < s_post.len() && s_post[j] == p),
        r_post.no_duplicates(),
        forall|i: int, j: int| 0 <= i < j < s_post.len() ==> #[trigger] s_post[i] != #[trigger] s_post[j],
        forall|i: int, j: int| 0 <= i < r_post.len() && 0 <= j < s_post.len() ==> #[trigger] r_post[i] != #[trigger] s_post[j],
        forall|i: int| 0 <= i < r_post.len() ==> !v0[#[trigger] r_post[i]],
        forall|j: int| 0 <= j < s_post.len() ==> #[trigger] s_post[j] < mask.len() && !v0[s_post[j] as int],
        forall|i: int| 0 <= i < r_post.len() ==> connected(mask, w, h, start, #[trigger] r_post[i]),
        forall|j: int| 0 <= j < s_post.len() ==> connected(mask, w, h, start, #[trigger] s_post[j] as int),
        forall|i: int, q: int| 0 <= i < r_post.len() && 0 <= q < mask.len() && mask[q] && #[trigger] adjacent(#[trigger] r_post[i], q, w, h) ==> vis_post[q],
        r_post[0] == start,
{
    let last = s_pre.len() - 1;
    assert(s_pre[last] == index);
    if r_pre.len() == 0 {
        assert(s_pre[0] == start);
        assert(r_post[0] == index);
    } else {
        assert(r_post[0] == r_pre[0]);
    }
    assert forall|j: int| 0 <= j < popped.len() implies #[trigger] s_post[j] == popped[j] && popped[j] == s_pre[j] by {
        assert(s_post.subrange(0, popped.len() as int)[j] == s_post[j]);
    }
    // Everything on the stack before was marked; the new entries were not.
    assert forall|j: int| 0 <= j < s_pre.len() implies #[trigger] vis_pre[s_pre[j] as int] by {
        assert(exists|k: int| 0 <= k < s_pre.len() && s_pre[k] == s_pre[j]);
    }
    assert forall|i: int| 0 <= i < r_pre.len() implies #[trigger] vis_pre[r_pre[i]] by {
        assert(r_pre.contains(r_pre[i]));
    }
    assert forall|p: int| 0 <= p < mask.len() ==> #[trigger] vis_post[p] == (v0[p] || r_post.contains(p)
        || exists|j: int| 0 <= j < s_post.len() && s_post[j] == p) by {
        if 0 <= p < mask.len() {
            if r_pre.contains(p) {
                let i = choose|i: int| 0 <= i < r_pre.len() && r_pre[i] == p;
                assert(r_post[i] == p);
            }
            if r_post.contains(p) {
                let i = choose|i: int| 0 <= i < r_post.len() && r_post[i] == p;
                if i < r_pre.len() {
                    assert(r_pre[i] == p);
                } else {
                    assert(s_pre[last] == p);
                }
            }
            if exists|j: int| 0 <= j < s_pre.len() && s_pre[j] == p {
                let j = choose|j: int| 0 <= j < s_pre.len() && s_pre[j] == p;
                if j < last {
                    assert(s_post[j] == p);
                } else {
                    assert(r_post[r_pre.len() as int] == p);
                }
            }
            if exists|j: int| 0 <= j < s_post.len() && s_post[j] == p {
                let j = choose|j: int| 0 <= j < s_post.len() && s_post[j] == p;
                if j < popped.len() {
                    assert(s_pre[j] == p);
                }
            }
            if mask[p] && !vis_pre[p] && (exists|k: int| 0 <= k < nbs.len() && nbs[k] == p) {
                let j = choose|j: int| popped.len() <= j < s_post.len() && #[trigger] s_post[j] == p;
                assert(s_post[j] == p);
            }
        }
    }
    assert forall|i: int, j: int| 0 <= i < j < s_post.len() implies #[trigger] s_post[i] != #[trigger] s_post[j] by {
        if j < popped.len() {
            assert(s_pre[i] != s_pre[j]);
        } else if i < popped.len() {
            assert(vis_pre[s_pre[i] as int]);
        }
    }
    assert forall|i: int, j: int| 0 <= i < r_post.len() && 0 <= j < s_post.len() implies #[trigger] r_post[i] != #[trigger] s_post[j] by {
        if j < popped.len() {
            if i < r_pre.len() {
                assert(r_pre[i] != s_pre[j]);
            } else {
                assert(s_pre[last] != s_pre[j]);
            }
        } else {
            if i < r_pre.len() {
                assert(vis_pre[r_pre[i]]);
            } else {
                assert(vis_pre[s_pre[last] as int]);
            }
        }
    }
    assert(r_post.no_duplicates()) by {
        assert forall|i: int, j: int| 0 <= i < r_post.len() && 0 <= j < r_post.len() && i != j implies r_post[i] != r_post[j] by {
            if i < r_pre.len() && j < r_pre.len() {
            } else if i < r_pre.len() {
                assert(r_pre[i] != s_pre[last]);
            } else if j < r_pre.len() {
                assert(r_pre[j] != s_pre[last]);
            }
        }
    }
    assert forall|i: int| 0 <= i < r_post.len() implies !v0[#[trigger] r_post[i]] by {
        if i < r_pre.len() {
            assert(r_post[i] == r_pre[i]);
        }
    }
    assert forall|j: int| 0 <= j < s_post.len() implies #[trigger] s_post[j] < mask.len() && !v0[s_post[j] as int] by {
        if j >= popped.len() {
            assert(!vis_pre[s_post[j] as int]);
        }
    }
    assert forall|i: int| 0 <= i < r_post.len() implies connected(mask, w, h, start, #[trigger] r_post[i]) by {
        if i < r_pre.len() {
            assert(r_post[i] == r_pre[i]);
        } else {
            assert(connected(mask, w, h, start, s_pre[last] as int));
        }
    }
    assert forall|j: int| 0 <= j < s_post.len() implies connected(mask, w, h, start, #[trigger] s_post[j] as int) by {
        if j >= popped.len() {
            let k = choose|k: int| 0 <= k < nbs.len() && nbs[k] == s_post[j];
            assert(adjacent(index, nbs[k] as int, w, h));
            assert(connected(mask, w, h, start, s_pre[last] as int));
            lemma_connected_extend(mask, w, h, start, index, s_post[j] as int);
        }
    }
    assert forall|i: int, q: int| 0 <= i < r_post.len() && 0 <= q < mask.len() && mask[q] && #[trigger] adjacent(#[trigger] r_post[i], q, w, h)
        implies vis_post[q] by {
        if i < r_pre.len() {
            assert(r_post[i] == r_pre[i]);
            assert(vis_pre[q]);
        } else {
            let k = choose|k: int| 0 <= k < nbs.len() && #[trigger] nbs[k] == q;
            assert(nbs[k] == q);
        }
    }
}

/// `region` is a whole blob of the mask, listed once per pixel, starting from its first-found
/// pixel.
pub open spec fn is_blob(mask: Seq<bool>, width: int, height: int, region: Seq<(u32, u32)>) -> bool {
    let idx = positions(region, width);
    &&& region.len() > 0
    &&& idx.no_duplicates()
    &&& forall|k: int| 0 <= k < region.len() ==> (#[trigger] region[k]).0 < width && region[k].1 < height
    &&& 0 <= idx[0] < mask.len()
    &&& mask[idx[0]]
    &&& idx.to_set() == blob(mask, width, height, idx[0])
}

/// The largest connected blob of foreground pixels, as the points it covers; where several are
/// equally large, the one reached first in scan order. `None` when nothing is foreground.
///
/// Blobs are joined through shared sides only, not corners.
pub fn largest_region(mask: &[bool], width: u32, height: u32) -> (r: Option<Vec<(u32, u32)>>)
    requires
        mask@.len() == width * height,
        width * height <= u32::MAX,
    ensures
        r is None <==> forall|p: int| 0 <= p < mask@.len() ==> !mask@[p],
        r matches Some(region) ==> {
            let start = positions(region@, width as int)[0];
            &&& is_blob(mask@, width as int, height as int, region@)
            &&& forall|q: int| 0 <= q < mask@.len() && mask@[q] ==> #[trigger] blob(mask@, width as int, height as int, q).len() <= region@.len()
            &&& forall|q: int| 0 <= q < start && mask@[q] ==> #[trigger] blob(mask@, width as int, height as int, q).len() < region@.len()
        },
{
    let ghost w = width as int;
    let ghost h = height as int;
    let ghost n = mask@.len() as int;
    let mut visited: Vec<bool> = Vec::new();
    let mut i: usize = 0;
    while i < mask.len()
        invariant
            i <= mask@.len(),
            visited@.len() == i,
            forall|p: int| 0 <= p < i ==> !visited@[p],
        decreases mask@.len() - i,
    {
        visited.push(false);
        i = i + 1;
    }
    let mut best: Option<Vec<(u32, u32)>> = None;
    let mut start: usize = 0;
    assert(closed(mask@, w, h, marked(visited@))) by {
        assert forall|p: int, q: int| #[trigger] marked(visited@).contains(p) && 0 <= q < n && mask@[q] && #[trigger] adjacent(p, q, w, h)
            implies marked(visited@).contains(q) by {}
    }
    while start < mask.len()
        invariant
            w == width,
            h == height,
            n == mask@.len(),
            n == width * height,
            width * height <= u32::MAX,
            start <= n,
            visited@.len() == n,
            forall|p: int| 0 <= p < n && #[trigger] visited@[p] ==> mask@[p],
            closed(mask@, w, h, marked(visited@)),
            forall|p: int| 0 <= p < start && mask@[p] ==> #[trigger] visited@[p],
            best is None ==> forall|p: int| 0 <= p < n ==> !#[trigger] visited@[p],
            best matches Some(region) ==> {
                let s = positions(region@, w)[0];
                &&& is_blob(mask@, w, h, region@)
                &&& s < start
                &&& forall|q: int| 0 <= q < n && #[trigger] visited@[q] ==> blob(mask@, w, h, q).len() <= region@.len()
                &&& forall|q: int| 0 <= q < s && mask@[q] ==> #[trigger] blob(mask@, w, h, q).len() < region@.len()
            },
        decreases n - start,
    {
        if mask[start] && !visited[start] {
            let ghost before = visited@;
            let region = flood(mask, width, height, &mut visited, start);
            let ghost idx = positions(region@, w);
            proof {
                idx.unique_seq_to_set();
                // Every pixel of the new blob has its own blob inside it.
                assert forall|q: int| 0 <= q < n && idx.contains(q) implies #[trigger] blob(mask@, w, h, q).len() <= region@.len() by {
                    lemma_blob_within(mask@, w, h, idx.to_set(), q);
                    vstd::set_lib::lemma_len_subset(blob(mask@, w, h, q), idx.to_set());
                }
            }
            let bigger = match &best {
                None => true,
                Some(current) => region.len() > current.len(),
            };
            if bigger {
                proof {
                    assert forall|q: int| 0 <= q < start && mask@[q] implies #[trigger] blob(mask@, w, h, q).len() < region@.len() by {
                        assert(before[q]);
                    }
                    assert forall|q: int| 0 <= q < n && #[trigger] visited@[q] implies blob(mask@, w, h, q).len() <= region@.len() by {
                        if !before[q] {
                            assert(idx.contains(q));
                        }
                    }
                }
                best = Some(region);
            } else {
                proof {
                    let current = best.unwrap();
                    assert forall|q: int| 0 <= q < n && #[trigger] visited@[q] implies blob(mask@, w, h, q).len() <= current@.len() by {
                        if !before[q] {
                            assert(idx.contains(q));
                        }
                    }
                }
            }
        }
        start = start + 1;
    }
    proof {
        if best is None {
            assert forall|p: int| 0 <= p < n implies !mask@[p] by {
                assert(!visited@[p]);
            }
        } else {
            let region = best.unwrap();
            assert forall|q: int| 0 <= q < n && mask@[q] implies #[trigger] blob(mask@, w, h, q).len() <= region@.len() by {
                assert(visited@[q]);
            }
            let s0 = positions(region@, w)[0];
            assert(mask@[s0]);
        }
    }
    best
}

} // verus!
