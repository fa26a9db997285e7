use vstd::prelude::*;
use rand::RngCore;
use crate::stack::{bounded_block, block_of, rect_is, Rect, Stack};

verus! {

/// How often the intensity `v` occurs in `s`.
pub open spec fn count(s: Seq<u8>, v: int) -> nat
    decreases s.len(),
{
    if s.len() == 0 {
        0
    } else {
        count(s.drop_last(), v) + if s.last() == v { 1nat } else { 0nat }
    }
}

/// `bins` is the 256-bin intensity histogram of the samples `s`.
pub open spec fn is_histogram_of(bins: Seq<u32>, s: Seq<u8>) -> bool {
    &&& bins.len() == 256
    &&& forall|v: int| 0 <= v < 256 ==> bins[v] == count(s, v)
}

/// The pixels of `rect` in layer `layer`, row by row.
pub open spec fn rect_pixels(stack: &Stack, layer: int, rect: Rect) -> Seq<u8> {
    Seq::new(
        (rect.w * rect.h) as nat,
        |k: int| stack.pixel(layer, rect.x + k % (rect.w as int), rect.y + k / (rect.w as int)),
    )
}

/// The pixels that the random bytes `b` pick from `rect` in layer `layer`:
/// bytes `2t` and `2t + 1` give the column and row offsets of sample `t`, taken
/// modulo the rectangle's width and height. An odd last byte is left over, and
/// a rectangle without area yields no samples.
pub open spec fn picked_pixels(stack: &Stack, layer: int, rect: Rect, b: Seq<u8>) -> Seq<u8> {
    if rect.w == 0 || rect.h == 0 {
        Seq::empty()
    } else {
        Seq::new(
            b.len() / 2,
            |t: int| stack.pixel(layer, rect.x + (b[2 * t] as int) % (rect.w as int), rect.y + (b[2 * t + 1] as int) % (rect.h as int)),
        )
    }
}

/// Sum of the counts of a histogram.
pub open spec fn bins_total(bins: Seq<u32>) -> int
    decreases bins.len(),
{
    if bins.len() == 0 {
        0
    } else {
        bins_total(bins.drop_last()) + bins.last()
    }
}

/// How a neighbourhood is turned into a histogram.
#[derive(Clone, Copy, Debug, PartialEq, Eq, Structural)]
pub enum Sampler {
    /// Every pixel of the neighbourhood, once.
    Exhaustive,
    /// Pixels picked at random, one for every four pixels of the neighbourhood.
    Random,
}

/// The counts of one intensity: appending a sample adds one to its bin only.
proof fn lemma_count_push(s: Seq<u8>, p: u8)
    ensures
        forall|v: int| #[trigger] count(s.push(p), v) == count(s, v) + if p == v { 1nat } else { 0nat },
{
    assert forall|v: int| #[trigger] count(s.push(p), v) == count(s, v) + if p == v { 1nat } else { 0nat } by {
        assert(s.push(p).drop_last() =~= s);
    }
}

proof fn lemma_count_le_len(s: Seq<u8>, v: int)
    ensures
        count(s, v) <= s.len(),
    decreases s.len(),
{
    if s.len() > 0 {
        lemma_count_le_len(s.drop_last(), v);
    }
}

proof fn lemma_pixel_in_layer(stack: &Stack, layer: int, x: int, y: int)
    requires
        stack.wf(),
        0 <= layer < stack.layers(),
        0 <= x < stack.w,
        0 <= y < stack.h,
    ensures
        0 <= layer * stack.plane() + y * stack.w + x < stack.buffer@.len(),
        layer * stack.plane() + y * stack.w + x < (layer + 1) * stack.plane(),
{
    let p = stack.plane();
    let n = stack.buffer@.len() as int;
    let w = stack.w as int;
    let h = stack.h as int;
    assert(0 <= y * w + x < p) by (nonlinear_arith)
        requires
            0 <= x < w,
            0 <= y < h,
            p == w * h,
    {
        assert(y * w + x < y * w + w);
        assert(y * w + w == (y + 1) * w);
        assert((y + 1) * w <= h * w);
    }
    assert(0 <= layer * p) by (nonlinear_arith)
        requires
            0 <= layer,
            p > 0,
    ;
    assert((layer + 1) * p <= n) by (nonlinear_arith)
        requires
            0 <= layer < n / p,
            p > 0,
            n % p == 0,
            n >= 0,
    {
        assert(n == p * (n / p) + n % p);
        assert(layer + 1 <= n / p);
        assert((layer + 1) * p <= (n / p) * p);
    }
    assert((layer + 1) * p == layer * p + p) by (nonlinear_arith);
}

/// Flat buffer position of pixel `(x, y)` of layer `layer`.
fn flat_position(stack: &Stack, layer: usize, x: u32, y: u32) -> (r: usize)
    requires
        stack.wf(),
        layer < stack.layers(),
        x < stack.w,
        y < stack.h,
    ensures
        r == layer * stack.plane() + y * stack.w + x,
        r < stack.buffer@.len(),
{
    proof {
        lemma_pixel_in_layer(stack, layer as int, x as int, y as int);
    }
    let plane = (stack.w as usize) * (stack.h as usize);
    proof {
        assert(y * stack.w + x < stack.plane()) by (nonlinear_arith)
            requires
                x < stack.w,
                y < stack.h,
        {
            assert(y * stack.w + x < (y + 1) * stack.w);
            assert((y + 1) * stack.w <= stack.h * stack.w);
        }
    }
    let in_layer = (y as usize) * (stack.w as usize) + (x as usize);
    proof {
        assert(plane as int == stack.plane());
        assert((layer as int) * (plane as int) == layer * stack.plane());
    }
    let len = stack.buffer.len();
    proof {
        assert(layer * stack.plane() + y * stack.w + x < len);
    }
    layer * plane + in_layer
}

/// Counts every pixel of `bounds` in layer `layer` into a 256-bin histogram.
pub fn sample_all(stack: &Stack, layer: usize, bounds: Rect) -> (r: Vec<u32>)
    requires
        stack.wf(),
        layer < stack.layers(),
        bounds.within(stack.w as int, stack.h as int),
    ensures
        is_histogram_of(r@, rect_pixels(stack, layer as int, bounds)),
{
    let ghost all = rect_pixels(stack, layer as int, bounds);
    let mut bins: Vec<u32> = vec![0u32; 256];
    let ghost mut seen: Seq<u8> = Seq::empty();
    proof {
        assert(seen.len() <= (bounds.w as int) * (bounds.h as int)) by (nonlinear_arith)
            requires seen.len() == 0, bounds.w >= 0, bounds.h >= 0;
        assert((bounds.w as int) * (bounds.h as int) <= stack.plane()) by (nonlinear_arith)
            requires
                bounds.w <= stack.w,
                bounds.h <= stack.h,
        {
            assert((bounds.w as int) * (bounds.h as int) <= (stack.w as int) * (bounds.h as int));
            assert((stack.w as int) * (bounds.h as int) <= (stack.w as int) * (stack.h as int));
        }
    }
    let mut row: u32 = 0;
    while row < bounds.h
        invariant
            stack.wf(),
            layer < stack.layers(),
            bounds.within(stack.w as int, stack.h as int),
            all == rect_pixels(stack, layer as int, bounds),
            (bounds.w as int) * (bounds.h as int) <= stack.plane(),
            row <= bounds.h,
            seen.len() == row * bounds.w,
            seen =~= all.take(seen.len() as int),
            is_histogram_of(bins@, seen),
        decreases bounds.h - row,
    {
        proof {
            assert((row + 1) * bounds.w <= (bounds.w as int) * (bounds.h as int)) by (nonlinear_arith)
                requires row < bounds.h;
        }
        let mut col: u32 = 0;
        while col < bounds.w
            invariant
                stack.wf(),
                layer < stack.layers(),
                bounds.within(stack.w as int, stack.h as int),
                all == rect_pixels(stack, layer as int, bounds),
                (bounds.w as int) * (bounds.h as int) <= stack.plane(),
                row < bounds.h,
                (row + 1) * bounds.w <= (bounds.w as int) * (bounds.h as int),
                col <= bounds.w,
                seen.len() == row * bounds.w + col,
                seen =~= all.take(seen.len() as int),
                is_histogram_of(bins@, seen),
            decreases bounds.w - col,
        {
            let pos = flat_position(stack, layer, bounds.x + col, bounds.y + row);
            let p = stack.buffer[pos];
            let k = Ghost(seen.len() as int);
            proof {
                assert(k@ < (bounds.w as int) * (bounds.h as int)) by (nonlinear_arith)
                    requires
                        k@ == row * bounds.w + col,
                        col < bounds.w,
                        (row + 1) * bounds.w <= (bounds.w as int) * (bounds.h as int);
                assert(k@ % (bounds.w as int) == col && k@ / (bounds.w as int) == row) by (nonlinear_arith)
                    requires
                        k@ == row * bounds.w + col,
                        col < bounds.w,
                        row >= 0;
                assert(all[k@] == stack.pixel(layer as int, bounds.x + k@ % (bounds.w as int), bounds.y + k@ / (bounds.w as int)));
                assert(all[k@] == p);
                lemma_count_le_len(seen, p as int);
                lemma_count_push(seen, p);
            }
            bins.set(p as usize, bins[p as usize] + 1);
            proof {
                seen = seen.push(p);
                assert(seen =~= all.take(seen.len() as int));
            }
            col = col + 1;
        }
        row = row + 1;
        proof {
            assert(seen.len() == row * bounds.w) by (nonlinear_arith)
                requires seen.len() == (row - 1) * bounds.w + bounds.w;
        }
    }
    proof {
        assert(seen.len() == all.len()) by (nonlinear_arith)
            requires
                seen.len() == row * bounds.w,
                row == bounds.h,
                all.len() == (bounds.w * bounds.h) as nat;
        assert(seen =~= all);
    }
    bins
}

/// Counts the pixels that the bytes `bytes` pick from `bounds` in layer
/// `layer`, two bytes to a sample, into a 256-bin histogram.
pub fn sample_pairs(stack: &Stack, layer: usize, bounds: Rect, bytes: &Vec<u8>) -> (r: Vec<u32>)
    requires
        stack.wf(),
        layer < stack.layers(),
        bounds.within(stack.w as int, stack.h as int),
        bytes@.len() / 2 <= u32::MAX,
    ensures
        is_histogram_of(r@, picked_pixels(stack, layer as int, bounds, bytes@)),
{
    let ghost all = picked_pixels(stack, layer as int, bounds, bytes@);
    let mut bins: Vec<u32> = vec![0u32; 256];
    if bounds.w == 0 || bounds.h == 0 {
        proof {
            assert(is_histogram_of(bins@, all));
        }
        return bins;
    }
    let len = bytes.len();
    let pairs = len / 2;
    let ghost mut seen: Seq<u8> = Seq::empty();
    let mut t: usize = 0;
    while t < pairs
        invariant
            stack.wf(),
            layer < stack.layers(),
            bounds.within(stack.w as int, stack.h as int),
            bounds.w > 0,
            bounds.h > 0,
            all == picked_pixels(stack, layer as int, bounds, bytes@),
            pairs == bytes@.len() / 2,
            pairs <= u32::MAX,
            bytes@.len() <= usize::MAX,
            t <= pairs,
            seen.len() == t,
            seen =~= all.take(t as int),
            is_histogram_of(bins@, seen),
        decreases pairs - t,
    {
        proof {
            assert(2 * t + 1 < bytes@.len());
        }
        let x = bounds.x + (bytes[2 * t] as u32) % bounds.w;
        let y = bounds.y + (bytes[2 * t + 1] as u32) % bounds.h;
        let pos = flat_position(stack, layer, x, y);
        let p = stack.buffer[pos];
        proof {
            assert(all[t as int] == p);
            lemma_count_le_len(seen, p as int);
            lemma_count_push(seen, p);
        }
        bins.set(p as usize, bins[p as usize] + 1);
        proof {
            seen = seen.push(p);
            assert(seen =~= all.take(seen.len() as int));
        }
        t = t + 1;
    }
    proof {
        assert(seen =~= all);
    }
    bins
}

/// Relies on rand's `thread_rng` and `RngCore::fill_bytes`: `n` bytes from the
/// thread-local generator; nothing is known of their values. `thread_rng`
/// panics only where the operating system gives no seed.
#[verifier::external_body]
fn random_bytes(n: usize) -> (r: Vec<u8>)
    ensures
        r@.len() == n,
{
    let mut buf = vec![0u8; n];
    rand::thread_rng().fill_bytes(&mut buf);
    buf
}

/// Counts pixels picked at random from `bounds` in layer `layer`: half as
/// many random bytes as the rectangle has pixels, two bytes to a sample.
pub fn sample_random(stack: &Stack, layer: usize, bounds: Rect) -> (r: Vec<u32>)
    requires
        stack.wf(),
        layer < stack.layers(),
        bounds.within(stack.w as int, stack.h as int),
    ensures
        exists|b: Seq<u8>|
            b.len() == (bounds.w * bounds.h) / 2 && #[trigger] is_histogram_of(
                r@,
                picked_pixels(stack, layer as int, bounds, b),
            ),
{
    proof {
        assert((bounds.w as int) * (bounds.h as int) <= stack.plane()) by (nonlinear_arith)
            requires
                bounds.w <= stack.w,
                bounds.h <= stack.h,
        {
            assert((bounds.w as int) * (bounds.h as int) <= (stack.w as int) * (bounds.h as int));
            assert((stack.w as int) * (bounds.h as int) <= (stack.w as int) * (stack.h as int));
        }
    }
    let bytes = random_bytes(((bounds.w * bounds.h) / 2) as usize);
    let r = sample_pairs(stack, layer, bounds, &bytes);
    proof {
        assert(is_histogram_of(r@, picked_pixels(stack, layer as int, bounds, bytes@)));
    }
    r
}

/// The histogram of the neighbourhood of the pixel at flat position `offset`
/// of the stack: its layer is `offset / (w * h)`, its position in the layer
/// `offset % (w * h)`, and the neighbourhood the block of width `quality`
/// around it.
pub fn pixel_histogram(stack: &Stack, sampler: Sampler, offset: usize, quality: u32) -> (r: Vec<u32>)
    requires
        stack.wf(),
        offset < stack.buffer@.len(),
    ensures
        ({
            let layer = offset as int / stack.plane();
            let b = block_of(stack.w as int, stack.h as int, offset as int % stack.plane(), quality as int);
            exists|rect: Rect| #[trigger] rect_is(rect, b) && match sampler {
                Sampler::Exhaustive => is_histogram_of(r@, rect_pixels(stack, layer, rect)),
                Sampler::Random => exists|bytes: Seq<u8>|
                    bytes.len() == (rect.w * rect.h) / 2 && #[trigger] is_histogram_of(
                        r@,
                        picked_pixels(stack, layer, rect, bytes),
                    ),
            }
        }),
{
    let plane = (stack.w as usize) * (stack.h as usize);
    let layer = offset / plane;
    let index = offset % plane;
    proof {
        let n = stack.buffer@.len() as int;
        let p = stack.plane();
        let o = offset as int;
        assert(o / p < n / p) by (nonlinear_arith)
            requires
                0 <= o < n,
                p > 0,
                n % p == 0,
        {
            assert(n == p * (n / p));
            assert(o == p * (o / p) + o % p);
            if o / p >= n / p {
                assert(p * (o / p) >= p * (n / p));
            }
        }
    }
    let bounds = bounded_block(stack, index as u32, quality);
    match sampler {
        Sampler::Exhaustive => sample_all(stack, layer, bounds),
        Sampler::Random => sample_random(stack, layer, bounds),
    }
}

/// Sum of the counts of the intensities below `k` in `s`.
spec fn counts_below(s: Seq<u8>, k: int) -> int
    decreases k,
{
    if k <= 0 {
        0
    } else {
        counts_below(s, k - 1) + count(s, k - 1)
    }
}

proof fn lemma_counts_below_push(s: Seq<u8>, p: u8, k: int)
    requires
        k >= 0,
    ensures
        counts_below(s.push(p), k) == counts_below(s, k) + if p < k { 1int } else { 0int },
    decreases k,
{
    lemma_count_push(s, p);
    if k > 0 {
        lemma_counts_below_push(s, p, k - 1);
    }
}

proof fn lemma_counts_below_empty(s: Seq<u8>, k: int)
    requires
        s.len() == 0,
    ensures
        counts_below(s, k) == 0,
    decreases k,
{
    if k > 0 {
        lemma_counts_below_empty(s, k - 1);
    }
}

proof fn lemma_counts_below_all(s: Seq<u8>)
    ensures
        counts_below(s, 256) == s.len(),
    decreases s.len(),
{
    if s.len() == 0 {
        lemma_counts_below_empty(s, 256);
    } else {
        let t = s.drop_last();
        lemma_counts_below_all(t);
        lemma_counts_below_push(t, s.last(), 256);
        assert(t.push(s.last()) =~= s);
    }
}

proof fn lemma_bins_total_prefix(bins: Seq<u32>, s: Seq<u8>, k: int)
    requires
        is_histogram_of(bins, s),
        0 <= k <= 256,
    ensures
        bins_total(bins.take(k)) == counts_below(s, k),
    decreases k,
{
    if k > 0 {
        lemma_bins_total_prefix(bins, s, k - 1);
        assert(bins.take(k).drop_last() =~= bins.take(k - 1));
    }
}

/// The exhaustive histogram of a rectangle counts each of its pixels once: its
/// bins add up to the rectangle's area.
pub proof fn exhaustive_total(stack: &Stack, layer: int, rect: Rect, bins: Seq<u32>)
    requires
        stack.wf(),
        0 <= layer < stack.layers(),
        rect.within(stack.w as int, stack.h as int),
        is_histogram_of(bins, rect_pixels(stack, layer, rect)),
    ensures
        bins_total(bins) == rect.w * rect.h,
{
    lemma_histogram_total(bins, rect_pixels(stack, layer, rect));
}

/// A histogram of randomly picked pixels counts one sample for each pair of
/// bytes, and none where the rectangle has no area.
pub proof fn random_total(stack: &Stack, layer: int, rect: Rect, bytes: Seq<u8>, bins: Seq<u32>)
    requires
        stack.wf(),
        0 <= layer < stack.layers(),
        rect.within(stack.w as int, stack.h as int),
        is_histogram_of(bins, picked_pixels(stack, layer, rect, bytes)),
    ensures
        bins_total(bins) == if rect.w == 0 || rect.h == 0 { 0 } else { bytes.len() / 2 },
{
    lemma_histogram_total(bins, picked_pixels(stack, layer, rect, bytes));
}

proof fn lemma_histogram_total(bins: Seq<u32>, s: Seq<u8>)
    requires
        is_histogram_of(bins, s),
    ensures
        bins_total(bins) == s.len(),
{
    lemma_bins_total_prefix(bins, s, 256);
    lemma_counts_below_all(s);
    assert(bins.take(256) =~= bins);
}

proof fn lemma_histogram_unique(a: Seq<u32>, b: Seq<u32>, s: Seq<u8>)
    requires
        is_histogram_of(a, s),
        is_histogram_of(b, s),
    ensures
        a == b,
{
    assert(a =~= b);
}

/// The exhaustive sampler is deterministic: two histograms of the same pixel
/// of the same stack, for the same block width, are equal.
pub proof fn exhaustive_deterministic(
    stack: &Stack,
    offset: int,
    quality: int,
    first: Seq<u32>,
    second: Seq<u32>,
)
    requires
        stack.wf(),
        0 <= offset < stack.buffer@.len(),
        exists|rect: Rect| #[trigger]
            rect_is(rect, block_of(stack.w as int, stack.h as int, offset % stack.plane(), quality))
                && is_histogram_of(first, rect_pixels(stack, offset / stack.plane(), rect)),
        exists|rect: Rect| #[trigger]
            rect_is(rect, block_of(stack.w as int, stack.h as int, offset % stack.plane(), quality))
                && is_histogram_of(second, rect_pixels(stack, offset / stack.plane(), rect)),
    ensures
        first == second,
{
    let b = block_of(stack.w as int, stack.h as int, offset % stack.plane(), quality);
    let layer = offset / stack.plane();
    let r1 = choose|rect: Rect| #[trigger] rect_is(rect, b) && is_histogram_of(first, rect_pixels(stack, layer, rect));
    let r2 = choose|rect: Rect| #[trigger] rect_is(rect, b) && is_histogram_of(second, rect_pixels(stack, layer, rect));
    assert(r1 == r2);
    lemma_histogram_unique(first, second, rect_pixels(stack, layer, r1));
}

} // verus!
