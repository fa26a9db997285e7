use vstd::prelude::*;

verus! {

/// A stack of equally sized grayscale layers held in one flat buffer.
///
/// Pixel `(x, y)` of layer `l` sits at `l * w * h + y * w + x`.
pub struct Stack {
    pub w: u32,
    pub h: u32,
    pub buffer: Vec<u8>,
}

/// A rectangle of one layer: top-left corner `(x, y)`, width `w`, height `h`.
#[derive(Clone, Copy, Debug, PartialEq, Eq, Structural)]
pub struct Rect {
    pub x: u32,
    pub y: u32,
    pub w: u32,
    pub h: u32,
}

impl Stack {
    /// Number of pixels in one layer.
    pub open spec fn plane(&self) -> int {
        self.w as int * self.h as int
    }

    /// Layers are non-empty, addressable by a `u32` index, and the buffer
    /// holds a whole number of them.
    pub open spec fn wf(&self) -> bool {
        &&& 0 < self.plane() <= u32::MAX
        &&& self.buffer@.len() as int % self.plane() == 0
    }

    pub open spec fn layers(&self) -> int {
        self.buffer@.len() as int / self.plane()
    }

    /// Intensity of pixel `(x, y)` of layer `layer`.
    pub open spec fn pixel(&self, layer: int, x: int, y: int) -> u8 {
        self.buffer@[layer * self.plane() + y * self.w + x]
    }

    /// Number of layers in the stack.
    pub fn layer_count(&self) -> (r: usize)
        requires
            self.wf(),
        ensures
            r == self.layers(),
    {
        let plane = (self.w as usize) * (self.h as usize);
        self.buffer.len() / plane
    }
}

impl Rect {
    /// The rectangle lies inside a `width` by `height` layer.
    pub open spec fn within(&self, width: int, height: int) -> bool {
        self.x + self.w <= width && self.y + self.h <= height
    }
}

/// Start of a neighbourhood that reaches `hw` pixels back from `p`, clamped at zero.
pub open spec fn clamped_start(p: int, hw: int) -> int {
    if p >= hw {
        p - hw
    } else {
        0
    }
}

/// Extent of a neighbourhood from `s`, reaching `hw` pixels on, clamped to the
/// last pixel of a line of `limit` pixels.
pub open spec fn clamped_span(s: int, hw: int, limit: int) -> int {
    if s + hw <= limit - 1 {
        hw
    } else {
        limit - 1 - s
    }
}

/// The neighbourhood of the pixel at flat position `index` of a `width` by
/// `height` layer, for the block width `q`.
pub open spec fn block_of(width: int, height: int, index: int, q: int) -> (int, int, int, int) {
    let hw = q / 2;
    let x = clamped_start(index % width, hw);
    let y = clamped_start(index / width, hw);
    (x, y, clamped_span(x, hw, width), clamped_span(y, hw, height))
}

pub open spec fn rect_is(r: Rect, b: (int, int, int, int)) -> bool {
    r.x == b.0 && r.y == b.1 && r.w == b.2 && r.h == b.3
}

proof fn lemma_row_of_index(index: int, width: int, height: int)
    requires
        0 <= index < width * height,
        width > 0,
    ensures
        0 <= index / width < height,
        0 <= index % width < width,
{
    assert(0 <= index / width < height) by (nonlinear_arith)
        requires
            0 <= index < width * height,
            width > 0,
    {
        assert(index == width * (index / width) + index % width);
        if index / width >= height {
            assert(width * (index / width) >= width * height);
        }
    }
}

/// Clamps `start + hw` to `limit - 1` without overflow.
fn span(start: u32, hw: u32, limit: u32) -> (r: u32)
    requires
        start < limit,
    ensures
        r == clamped_span(start as int, hw as int, limit as int),
{
    if hw <= limit - 1 - start {
        hw
    } else {
        limit - 1 - start
    }
}

/// The neighbourhood of pixel `index` of a layer of `stack` for block width
/// `block_width`: it reaches `block_width / 2` pixels back from the pixel,
/// clamped at zero, and as far on from that start, clamped to the last pixel.
pub fn bounded_block(stack: &Stack, index: u32, block_width: u32) -> (r: Rect)
    requires
        stack.wf(),
        index < stack.plane(),
    ensures
        rect_is(r, block_of(stack.w as int, stack.h as int, index as int, block_width as int)),
        r.within(stack.w as int, stack.h as int),
{
    proof {
        lemma_row_of_index(index as int, stack.w as int, stack.h as int);
    }
    let px = index % stack.w;
    let py = index / stack.w;
    let hw = block_width / 2;
    let x = if px >= hw { px - hw } else { 0 };
    let y = if py >= hw { py - hw } else { 0 };
    let w = span(x, hw, stack.w);
    let h = span(y, hw, stack.h);
    Rect { x, y, w, h }
}

/// Every neighbourhood lies inside the layer, and it is non-empty when the
/// block width is at least 2 and the layer at least 2 by 2 pixels.
pub proof fn block_stays_inside(width: int, height: int, index: int, q: int)
    requires
        width > 0,
        height > 0,
        0 <= index < width * height,
        q >= 0,
    ensures
        ({
            let b = block_of(width, height, index, q);
            &&& 0 <= b.0
            &&& 0 <= b.1
            &&& 0 <= b.2
            &&& 0 <= b.3
            &&& b.0 + b.2 <= width
            &&& b.1 + b.3 <= height
            &&& (q >= 2 && width >= 2 && height >= 2) ==> (b.2 >= 1 && b.3 >= 1)
        }),
{
    lemma_row_of_index(index, width, height);
}

} // verus!
