use vstd::prelude::*;
use crate::stack::Stack;

verus! {

/// A decoded grayscale image: `pixels` row by row, one byte per pixel.
pub struct Gray {
    pub width: u32,
    pub height: u32,
    pub pixels: Vec<u8>,
}

/// Why a set of images cannot be stacked.
#[derive(Clone, Copy, Debug, PartialEq, Eq, Structural)]
pub enum StackError {
    /// No image was given.
    EmptyInput,
    /// An image holds other than `width * height` pixels, or the common size
    /// has no pixels or more than a `u32` can count.
    DimensionMismatch,
}

impl Gray {
    pub open spec fn consistent(&self) -> bool {
        self.pixels@.len() == self.width as int * self.height as int
    }
}

/// The smallest width among `s` (`u32::MAX` for none).
pub open spec fn min_width(s: Seq<Gray>) -> int
    decreases s.len(),
{
    if s.len() == 0 {
        u32::MAX as int
    } else {
        let m = min_width(s.drop_last());
        if s.last().width < m { s.last().width as int } else { m }
    }
}

/// The smallest height among `s` (`u32::MAX` for none).
pub open spec fn min_height(s: Seq<Gray>) -> int
    decreases s.len(),
{
    if s.len() == 0 {
        u32::MAX as int
    } else {
        let m = min_height(s.drop_last());
        if s.last().height < m { s.last().height as int } else { m }
    }
}

/// The images can be stacked: there is one, each is consistent, and the
/// common size has pixels that a `u32` can count.
pub open spec fn mergeable(s: Seq<Gray>) -> bool {
    &&& s.len() > 0
    &&& forall|i: int| 0 <= i < s.len() ==> (#[trigger] s[i]).consistent()
    &&& 0 < min_width(s) * min_height(s) <= u32::MAX
}

/// The centred `w` by `h` window of `g`, row by row; the offsets are rounded down.
pub open spec fn crop(g: Gray, w: int, h: int) -> Seq<u8> {
    let ox = (g.width - w) / 2;
    let oy = (g.height - h) / 2;
    Seq::new((w * h) as nat, |k: int| g.pixels@[(oy + k / w) * g.width + ox + k % w])
}

/// The centred `w` by `h` windows of `s`, one after another.
pub open spec fn cropped_all(s: Seq<Gray>, w: int, h: int) -> Seq<u8>
    decreases s.len(),
{
    if s.len() == 0 {
        Seq::empty()
    } else {
        cropped_all(s.drop_last(), w, h) + crop(s.last(), w, h)
    }
}

proof fn lemma_min_bounds(s: Seq<Gray>, i: int)
    requires
        0 <= i < s.len(),
    ensures
        min_width(s) <= s[i].width,
        min_height(s) <= s[i].height,
    decreases s.len(),
{
    if i < s.len() - 1 {
        lemma_min_bounds(s.drop_last(), i);
    }
}

proof fn lemma_cropped_len(s: Seq<Gray>, w: int, h: int)
    requires
        w >= 0,
        h >= 0,
    ensures
        cropped_all(s, w, h).len() == s.len() * (w * h),
    decreases s.len(),
{
    if s.len() > 0 {
        lemma_cropped_len(s.drop_last(), w, h);
        assert(s.len() * (w * h) == (s.len() - 1) * (w * h) + w * h) by (nonlinear_arith);
    }
}

/// Stacks the images: each is cropped to the smallest width and height among
/// them, centred, and the crops are laid one after another in input order.
pub fn merge(images: Vec<Gray>) -> (r: Result<Stack, StackError>)
    ensures
        match r {
            Ok(stack) => {
                &&& mergeable(images@)
                &&& stack.w == min_width(images@)
                &&& stack.h == min_height(images@)
                &&& stack.buffer@ == cropped_all(images@, stack.w as int, stack.h as int)
                &&& stack.wf()
                &&& stack.layers() == images@.len()
            },
            Err(e) => {
                &&& !mergeable(images@)
                &&& e == if images@.len() == 0 {
                    StackError::EmptyInput
                } else {
                    StackError::DimensionMismatch
                }
            },
        },
{
    if images.len() == 0 {
        return Err(StackError::EmptyInput);
    }
    let mut w: u32 = u32::MAX;
    let mut h: u32 = u32::MAX;
    let mut i: usize = 0;
    while i < images.len()
        invariant
            i <= images@.len(),
            w == min_width(images@.take(i as int)),
            h == min_height(images@.take(i as int)),
            forall|j: int| 0 <= j < i ==> (#[trigger] images@[j]).consistent(),
        decreases images@.len() - i,
    {
        let img = &images[i];
        proof {
            assert(images@.take(i + 1).drop_last() =~= images@.take(i as int));
        }
        proof {
            assert((img.width as int) * (img.height as int) <= u64::MAX) by (nonlinear_arith)
                requires img.width <= u32::MAX, img.height <= u32::MAX;
        }
        if (img.pixels.len() as u64) != (img.width as u64) * (img.height as u64) {
            proof {
                assert(!images@[i as int].consistent());
            }
            return Err(StackError::DimensionMismatch);
        }
        if img.width < w {
            w = img.width;
        }
        if img.height < h {
            h = img.height;
        }
        i = i + 1;
    }
    proof {
        assert(images@.take(i as int) =~= images@);
    }
    proof {
        assert((w as int) * (h as int) <= u64::MAX) by (nonlinear_arith)
            requires w <= u32::MAX, h <= u32::MAX;
    }
    if w == 0 || h == 0 || (w as u64) * (h as u64) > u32::MAX as u64 {
        proof {
            if w == 0 || h == 0 {
                assert((w as int) * (h as int) == 0) by (nonlinear_arith)
                    requires w == 0 || h == 0;
            }
        }
        return Err(StackError::DimensionMismatch);
    }
    proof {
        assert((w as int) * (h as int) > 0) by (nonlinear_arith)
            requires w > 0, h > 0;
    }
    let mut buffer: Vec<u8> = Vec::new();
    let mut i: usize = 0;
    while i < images.len()
        invariant
            i <= images@.len(),
            w == min_width(images@),
            h == min_height(images@),
            mergeable(images@),
            buffer@ == cropped_all(images@.take(i as int), w as int, h as int),
        decreases images@.len() - i,
    {
        let img = &images[i];
        proof {
            lemma_min_bounds(images@, i as int);
            assert(images@[i as int].consistent());
        }
        let ghost before = buffer@;
        let ghost window = crop(*img, w as int, h as int);
        let ox = (img.width - w) / 2;
        let oy = (img.height - h) / 2;
        let mut row: u32 = 0;
        while row < h
            invariant
                img.consistent(),
                w <= img.width,
                h <= img.height,
                w > 0,
                ox == (img.width - w) / 2,
                oy == (img.height - h) / 2,
                window == crop(*img, w as int, h as int),
                row <= h,
                buffer@ == before + window.take(row * w),
            decreases h - row,
        {
            let mut col: u32 = 0;
            while col < w
                invariant
                    img.consistent(),
                    w <= img.width,
                    h <= img.height,
                    w > 0,
                    ox == (img.width - w) / 2,
                    oy == (img.height - h) / 2,
                    window == crop(*img, w as int, h as int),
                    row < h,
                    col <= w,
                    buffer@ == before + window.take(row * w + col),
                decreases w - col,
            {
                let ghost k = row * w + col;
                proof {
                    assert(k < (w as int) * (h as int) && k / (w as int) == row && k % (w as int) == col)
                        by (nonlinear_arith)
                        requires
                            k == row * w + col,
                            col < w,
                            row < h,
                    {
                        assert(row * w + col < (row + 1) * w);
                        assert((row + 1) * w <= h * w);
                    }
                    assert((oy + row) * img.width + ox + col < img.width * img.height) by (nonlinear_arith)
                        requires
                            oy + row < img.height,
                            ox + col < img.width,
                    {
                        assert((oy + row) * img.width + ox + col < (oy + row + 1) * img.width);
                        assert((oy + row + 1) * img.width <= img.height * img.width);
                    }
                }
                let len = img.pixels.len();
                proof {
                    assert((oy + row) * img.width + ox + col < len);
                }
                let at = ((oy + row) as usize) * (img.width as usize) + ((ox + col) as usize);
                buffer.push(img.pixels[at]);
                proof {
                    assert(buffer@ =~= before + window.take(k + 1));
                }
                col = col + 1;
            }
            proof {
                assert(row * w + w == (row + 1) * w) by (nonlinear_arith);
            }
            row = row + 1;
        }
        proof {
            assert(window.take(h * w) =~= window) by {
                assert(h * w == (w as int) * (h as int)) by (nonlinear_arith);
            }
            assert(images@.take(i + 1).drop_last() =~= images@.take(i as int));
        }
        i = i + 1;
    }
    proof {
        assert(images@.take(i as int) =~= images@);
        lemma_cropped_len(images@, w as int, h as int);
        let p = (w as int) * (h as int);
        let n = images@.len() as int;
        assert((n * p) % p == 0 && (n * p) / p == n) by (nonlinear_arith)
            requires p > 0, n >= 0;
    }
    Ok(Stack { w, h, buffer })
}

} // verus!
