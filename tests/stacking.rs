use entropy_stack::{
    bounded_block, merge, pixel_histogram, sample_all, sample_pairs, sample_random, Gray, Rect,
    Sampler, Stack, StackError,
};

fn numbered(width: u32, height: u32) -> Gray {
    let pixels = (0..width * height).map(|i| (i % 256) as u8).collect();
    Gray { width, height, pixels }
}

fn flat(w: u32, h: u32, layers: u32, value: u8) -> Stack {
    Stack { w, h, buffer: vec![value; (w * h * layers) as usize] }
}

#[test]
fn merge_takes_smallest_dimensions() {
    let stack = merge(vec![numbered(10, 10), numbered(8, 12), numbered(12, 8)]).unwrap();
    assert_eq!(stack.w, 8);
    assert_eq!(stack.h, 8);
    assert_eq!(stack.buffer.len(), 3 * 64);
    assert_eq!(stack.layer_count(), 3);
}

#[test]
fn merge_crops_around_the_centre() {
    let stack = merge(vec![numbered(10, 10), numbered(8, 12), numbered(12, 8)]).unwrap();
    // 10x10 is cut at (1, 1), 8x12 at (0, 2), 12x8 at (2, 0).
    assert_eq!(stack.buffer[0], 11);
    assert_eq!(stack.buffer[7], 18);
    assert_eq!(stack.buffer[8], 21);
    assert_eq!(stack.buffer[64], 16);
    assert_eq!(stack.buffer[128], 2);
    assert_eq!(stack.buffer[128 + 8], 14);
}

#[test]
fn merge_of_nothing_is_empty_input() {
    assert!(matches!(merge(Vec::new()), Err(StackError::EmptyInput)));
}

#[test]
fn merge_rejects_short_pixel_buffer() {
    let bad = Gray { width: 4, height: 4, pixels: vec![0; 15] };
    assert!(matches!(merge(vec![numbered(4, 4), bad]), Err(StackError::DimensionMismatch)));
}

#[test]
fn merge_rejects_image_without_pixels() {
    let empty = Gray { width: 0, height: 5, pixels: Vec::new() };
    assert!(matches!(merge(vec![numbered(4, 4), empty]), Err(StackError::DimensionMismatch)));
}

#[test]
fn merge_of_one_image_keeps_it() {
    let stack = merge(vec![numbered(3, 2)]).unwrap();
    assert_eq!((stack.w, stack.h), (3, 2));
    assert_eq!(stack.buffer, vec![0, 1, 2, 3, 4, 5]);
}

#[test]
fn block_at_top_left_corner_is_clamped() {
    let stack = flat(100, 100, 1, 0);
    assert_eq!(bounded_block(&stack, 0, 5), Rect { x: 0, y: 0, w: 2, h: 2 });
}

#[test]
fn block_inside_the_layer() {
    let stack = flat(100, 100, 1, 0);
    assert_eq!(bounded_block(&stack, 50 * 100 + 50, 5), Rect { x: 48, y: 48, w: 2, h: 2 });
}

#[test]
fn block_at_bottom_right_corner() {
    let stack = flat(100, 100, 1, 0);
    assert_eq!(bounded_block(&stack, 100 * 100 - 1, 5), Rect { x: 97, y: 97, w: 2, h: 2 });
}

#[test]
fn block_shrinks_at_far_edge() {
    let stack = flat(10, 10, 1, 0);
    // x = 8 - 3 = 5, right = min(5 + 3, 9) = 8.
    assert_eq!(bounded_block(&stack, 8, 7), Rect { x: 5, y: 0, w: 3, h: 3 });
    // x = 9 - 5 = 4, right = min(4 + 5, 9) = 9.
    assert_eq!(bounded_block(&stack, 9, 11), Rect { x: 4, y: 0, w: 5, h: 5 });
}

#[test]
fn block_of_width_one_is_empty() {
    let stack = flat(10, 10, 1, 0);
    assert_eq!(bounded_block(&stack, 55, 1), Rect { x: 5, y: 5, w: 0, h: 0 });
    assert_eq!(bounded_block(&stack, 55, 0), Rect { x: 5, y: 5, w: 0, h: 0 });
}

#[test]
fn block_stays_inside_every_layer_position() {
    let stack = flat(7, 5, 2, 0);
    for q in 0..12 {
        for index in 0..35 {
            let r = bounded_block(&stack, index, q);
            assert!(r.x + r.w <= 7 && r.y + r.h <= 5);
            if q >= 2 {
                assert!(r.w >= 1 && r.h >= 1);
            }
        }
    }
}

#[test]
fn exhaustive_counts_each_pixel_once() {
    let stack = Stack { w: 3, h: 2, buffer: vec![1, 2, 2, 3, 9, 9, 7, 7, 7, 7, 7, 7] };
    let bins = sample_all(&stack, 0, Rect { x: 0, y: 0, w: 2, h: 2 });
    assert_eq!(bins.len(), 256);
    assert_eq!((bins[1], bins[2], bins[3]), (1, 1, 1));
    assert_eq!(bins[9], 1);
    assert_eq!(bins[0], 0);
    assert_eq!(bins.iter().sum::<u32>(), 4);
}

#[test]
fn exhaustive_reads_the_requested_layer() {
    let stack = Stack { w: 3, h: 2, buffer: vec![1, 2, 2, 3, 9, 9, 7, 7, 7, 7, 7, 8] };
    let bins = sample_all(&stack, 1, Rect { x: 1, y: 0, w: 2, h: 2 });
    assert_eq!(bins[7], 3);
    assert_eq!(bins[8], 1);
    assert_eq!(bins.iter().sum::<u32>(), 4);
}

#[test]
fn exhaustive_of_empty_rect_is_all_zero() {
    let stack = flat(4, 4, 1, 5);
    let bins = sample_all(&stack, 0, Rect { x: 2, y: 2, w: 0, h: 2 });
    assert!(bins.iter().all(|&c| c == 0));
}

#[test]
fn pairs_pick_column_then_row() {
    // 3x3 layer with pixel value = 10 * y + x.
    let buffer = vec![0, 1, 2, 10, 11, 12, 20, 21, 22];
    let stack = Stack { w: 3, h: 3, buffer };
    let rect = Rect { x: 1, y: 1, w: 2, h: 2 };
    // (5 % 2, 2 % 2) = (1, 0) -> (2, 1) = 12; (4 % 2, 7 % 2) = (0, 1) -> (1, 2) = 21.
    let bins = sample_pairs(&stack, 0, rect, &vec![5, 2, 4, 7, 99]);
    assert_eq!(bins[12], 1);
    assert_eq!(bins[21], 1);
    assert_eq!(bins.iter().sum::<u32>(), 2);
}

#[test]
fn pairs_on_empty_rect_count_nothing() {
    let stack = flat(4, 4, 1, 5);
    let bins = sample_pairs(&stack, 0, Rect { x: 1, y: 1, w: 0, h: 3 }, &vec![1, 2, 3, 4]);
    assert!(bins.iter().all(|&c| c == 0));
}

#[test]
fn random_sampler_draws_a_quarter_of_the_area() {
    let stack = flat(10, 10, 2, 40);
    let bins = sample_random(&stack, 1, Rect { x: 1, y: 2, w: 6, h: 5 });
    // 30 pixels: 15 random bytes, 7 pairs.
    assert_eq!(bins[40], 7);
    assert_eq!(bins.iter().sum::<u32>(), 7);
}

#[test]
fn random_sampler_on_empty_rect_is_all_zero() {
    let stack = flat(10, 10, 1, 40);
    let bins = sample_random(&stack, 0, Rect { x: 1, y: 2, w: 0, h: 5 });
    assert!(bins.iter().all(|&c| c == 0));
}

#[test]
fn white_stack_neighbourhoods_agree_across_layers() {
    let stack = flat(4, 4, 3, 255);
    for offset in 0..48 {
        let bins = pixel_histogram(&stack, Sampler::Exhaustive, offset, 3);
        let first = pixel_histogram(&stack, Sampler::Exhaustive, offset % 16, 3);
        assert_eq!(bins, first);
        let r = bounded_block(&stack, (offset % 16) as u32, 3);
        assert_eq!(bins[255], r.w * r.h);
        assert_eq!(bins.iter().sum::<u32>(), r.w * r.h);
    }
}

#[test]
fn exhaustive_histograms_repeat() {
    let stack = merge(vec![numbered(9, 7), numbered(7, 9)]).unwrap();
    for offset in 0..stack.buffer.len() {
        let a = pixel_histogram(&stack, Sampler::Exhaustive, offset, 4);
        let b = pixel_histogram(&stack, Sampler::Exhaustive, offset, 4);
        assert_eq!(a, b);
    }
}

#[test]
fn pixel_histogram_uses_the_layer_of_the_offset() {
    let stack = Stack { w: 2, h: 2, buffer: vec![1, 1, 1, 1, 6, 6, 6, 6] };
    let bins = pixel_histogram(&stack, Sampler::Exhaustive, 4, 2);
    assert_eq!(bins[6], 1);
    assert_eq!(bins[1], 0);
    let random = pixel_histogram(&stack, Sampler::Random, 7, 4);
    assert!(random.iter().all(|&c| c == 0));
}
