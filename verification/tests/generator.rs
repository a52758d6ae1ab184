use std::cell::Cell;
use std::collections::VecDeque;

use stackblur_iter::color::serial::StackBlurrableU32;
use stackblur_iter::iter::{radius_in_range, StackBlur, StackBlurIter};

fn weight(radius: usize, distance: usize) -> u64 {
    if distance > radius {
        0
    } else {
        (radius + 1 - distance) as u64
    }
}

/// The blur as its definition has it: for each position the weighted sum of
/// the inputs that exist, wrapped to 32 bits, over the sum of their weights.
fn reference(radius: usize, input: &[u32]) -> Vec<u32> {
    (0..input.len())
        .map(|i| {
            let mut sum: u64 = 0;
            let mut total: u64 = 0;
            for (j, &x) in input.iter().enumerate() {
                let w = weight(radius, if i > j { i - j } else { j - i });
                sum = (sum + (x as u64) * w) % (1u64 << 32);
                total += w;
            }
            (sum / total) as u32
        })
        .collect()
}

fn feed_all(blur: &mut StackBlur<StackBlurrableU32>, input: &[u32]) -> Vec<u32> {
    let mut out = Vec::new();
    for &x in input {
        if let Some(y) = blur.feed(Some(StackBlurrableU32(x))) {
            out.push(y.0);
        }
    }
    while let Some(y) = blur.feed(None) {
        out.push(y.0);
    }
    out
}

fn blur_all(radius: usize, input: &[u32]) -> Vec<u32> {
    let mut blur: StackBlur<StackBlurrableU32> = StackBlur::new(radius);
    feed_all(&mut blur, input)
}

fn sample(len: usize, seed: u32) -> Vec<u32> {
    let mut state = seed;
    (0..len)
        .map(|_| {
            state = state.wrapping_mul(1_664_525).wrapping_add(1_013_904_223);
            state >> 8
        })
        .collect()
}

#[test]
fn radius_one_matches_hand_computed_values() {
    let out = blur_all(1, &[10, 0, 0, 0, 20, 0, 0, 0, 30]);
    assert_eq!(out, vec![6, 2, 0, 5, 10, 5, 0, 7, 20]);
}

#[test]
fn first_output_uses_only_the_taps_that_exist() {
    // weights 2 and 1, divisor 3
    let out = blur_all(1, &[10, 0, 0]);
    assert_eq!(out[0], (10 * 2 + 0 * 1) / 3);
    // weights 3, 2, 1 at the start of a radius-two blur, divisor 6
    let out = blur_all(2, &[60, 30, 12, 0, 0, 0]);
    assert_eq!(out[0], (60 * 3 + 30 * 2 + 12) / 6);
    // one tap hangs over on the left: weights 2, 3, 2, 1, divisor 8
    assert_eq!(out[1], (60 * 2 + 30 * 3 + 12 * 2) / 8);
    // a whole tent weighs nine
    assert_eq!(out[2], (60 + 30 * 2 + 12 * 3) / 9);
}

#[test]
fn as_many_outputs_as_inputs() {
    for radius in 0..12 {
        for len in 0..40 {
            let input = sample(len, (radius * 100 + len) as u32);
            assert_eq!(blur_all(radius, &input).len(), len);
        }
    }
}

#[test]
fn outputs_match_the_definition() {
    for radius in 0..9 {
        for len in 0..30 {
            let input = sample(len, (radius * 31 + len) as u32);
            assert_eq!(blur_all(radius, &input), reference(radius, &input));
        }
    }
}

#[test]
fn sums_that_wrap_still_match_the_definition() {
    let input = vec![u32::MAX, u32::MAX - 1, 0x8000_0000, 7, u32::MAX, 0, 0xFFFF_0000];
    for radius in 0..6 {
        assert_eq!(blur_all(radius, &input), reference(radius, &input));
    }
}

#[test]
fn radius_zero_changes_nothing() {
    let input = sample(25, 5);
    assert_eq!(blur_all(0, &input), input);
    assert_eq!(blur_all(0, &[u32::MAX, 0, 1]), vec![u32::MAX, 0, 1]);
}

#[test]
fn empty_sequence_gives_nothing() {
    let mut blur: StackBlur<StackBlurrableU32> = StackBlur::new(3);
    assert_eq!(blur.feed(None), None);
    assert_eq!(blur.feed(None), None);
    assert_eq!(blur_all(3, &[]), Vec::<u32>::new());
}

#[test]
fn nothing_comes_back_while_warming_up() {
    let radius = 4;
    let mut blur: StackBlur<StackBlurrableU32> = StackBlur::new(radius);
    for i in 0..=radius {
        assert_eq!(blur.feed(Some(StackBlurrableU32(i as u32))), None);
    }
    assert!(blur.feed(Some(StackBlurrableU32(9))).is_some());
}

#[test]
fn short_sequence_drains_completely() {
    // shorter than the warm-up
    let input = [5, 7, 11];
    let mut blur: StackBlur<StackBlurrableU32> = StackBlur::new(8);
    for &x in &input {
        assert_eq!(blur.feed(Some(StackBlurrableU32(x))), None);
    }
    let expected = reference(8, &input);
    for &e in &expected {
        assert_eq!(blur.feed(None), Some(StackBlurrableU32(e)));
    }
    assert_eq!(blur.feed(None), None);
}

#[test]
fn flat_signal_stays_flat() {
    for radius in 0..10 {
        for len in 1..30 {
            let input = vec![1000u32; len];
            assert_eq!(blur_all(radius, &input), input);
        }
    }
}

#[test]
fn flat_signal_that_overflows_does_not_stay_flat() {
    // 0x8000_0000 times a divisor of two wraps to nothing
    let out = blur_all(1, &[0x8000_0000, 0x8000_0000, 0x8000_0000]);
    assert_eq!(out, reference(1, &[0x8000_0000, 0x8000_0000, 0x8000_0000]));
    assert_ne!(out[1], 0x8000_0000);
}

#[test]
fn reversing_commutes_with_blurring() {
    for radius in 0..8 {
        for len in 0..25 {
            let input = sample(len, (radius * 7 + len) as u32);
            let mut reversed = input.clone();
            reversed.reverse();
            let mut expected = blur_all(radius, &input);
            expected.reverse();
            assert_eq!(blur_all(radius, &reversed), expected);
        }
    }
}

#[test]
fn reused_generator_keeps_nothing_of_the_first_sequence() {
    let first = sample(300, 1);
    let second = sample(17, 2);
    let mut blur: StackBlur<StackBlurrableU32> = StackBlur::new(128);
    assert_eq!(feed_all(&mut blur, &first), reference(128, &first));
    let out = feed_all(&mut blur, &second);
    assert_eq!(out, reference(128, &second));
    assert_eq!(out[0], blur_all(128, &second)[0]);
}

#[test]
fn recycled_window_keeps_nothing_of_the_first_sequence() {
    let first = sample(40, 3);
    let second = sample(500, 4);
    let mut blur: StackBlur<StackBlurrableU32> = StackBlur::new(128);
    assert_eq!(feed_all(&mut blur, &first), reference(128, &first));
    let ops = blur.into_ops();
    let mut again: StackBlur<StackBlurrableU32> = StackBlur::with_ops(128, ops);
    assert_eq!(feed_all(&mut again, &second), reference(128, &second));
}

#[test]
fn window_given_is_dropped() {
    let junk: VecDeque<StackBlurrableU32> = (0..50).map(StackBlurrableU32).collect();
    let mut blur = StackBlur::with_ops(2, junk);
    let input = sample(9, 8);
    assert_eq!(feed_all(&mut blur, &input), reference(2, &input));
}

#[test]
fn window_in_the_middle_of_a_sequence() {
    let mut blur: StackBlur<StackBlurrableU32> = StackBlur::new(1);
    for x in [1u32, 2, 3, 4] {
        blur.feed(Some(StackBlurrableU32(x)));
    }
    // two outputs are out; the window begins two places before the third
    let ops: Vec<u32> = blur.into_ops().into_iter().map(|v| v.0).collect();
    assert_eq!(ops, vec![1, 2, 3, 4]);
}

#[test]
fn iterator_gives_one_output_per_input() {
    for radius in 0..6 {
        for len in 0..20 {
            let input = sample(len, (radius + len) as u32);
            let source: Vec<StackBlurrableU32> = input.iter().map(|&x| StackBlurrableU32(x)).collect();
            let mut iter = StackBlurIter::new(source.into_iter(), radius, VecDeque::new());
            let mut out = Vec::new();
            while let Some(y) = iter.next() {
                out.push(y.0);
            }
            assert_eq!(out, reference(radius, &input));
            assert_eq!(iter.next(), None);
            assert_eq!(iter.next(), None);
        }
    }
}

#[test]
fn iterator_hands_its_window_back() {
    let source: Vec<StackBlurrableU32> = (1..=6).map(StackBlurrableU32).collect();
    let mut iter = StackBlurIter::new(source.into_iter(), 1, VecDeque::new());
    assert!(iter.next().is_some());
    assert!(iter.next().is_some());
    let ops: Vec<u32> = iter.into_ops().into_iter().map(|v| v.0).collect();
    assert_eq!(ops, vec![1, 2, 3, 4]);
}

#[test]
fn cloned_generator_goes_its_own_way() {
    let input = sample(12, 9);
    let mut blur: StackBlur<StackBlurrableU32> = StackBlur::new(2);
    let mut out = Vec::new();
    for &x in &input[..7] {
        if let Some(y) = blur.feed(Some(StackBlurrableU32(x))) {
            out.push(y.0);
        }
    }
    let mut twin = blur.clone();
    let mut twin_out = out.clone();
    for &x in &input[7..] {
        if let Some(y) = blur.feed(Some(StackBlurrableU32(x))) {
            out.push(y.0);
        }
    }
    while let Some(y) = blur.feed(None) {
        out.push(y.0);
    }
    assert_eq!(out, reference(2, &input));
    // the twin stops after seven inputs
    while let Some(y) = twin.feed(None) {
        twin_out.push(y.0);
    }
    assert_eq!(twin_out, reference(2, &input[..7]));
}

#[test]
fn cloned_iterator_goes_on_where_the_first_was() {
    let input = sample(10, 4);
    let source: Vec<StackBlurrableU32> = input.iter().map(|&x| StackBlurrableU32(x)).collect();
    let mut iter = StackBlurIter::new(source.into_iter(), 3, VecDeque::new());
    let expected = reference(3, &input);
    assert_eq!(iter.next(), Some(StackBlurrableU32(expected[0])));
    let mut twin = iter.clone();
    for &e in &expected[1..] {
        assert_eq!(iter.next(), Some(StackBlurrableU32(e)));
        assert_eq!(twin.next(), Some(StackBlurrableU32(e)));
    }
    assert_eq!(twin.next(), None);
}

/// Gives the values of one run after another, with a `None` after each.
struct Runs {
    runs: Vec<Vec<u32>>,
    run: usize,
    at: usize,
}

impl Iterator for Runs {
    type Item = StackBlurrableU32;

    fn next(&mut self) -> Option<StackBlurrableU32> {
        let run = self.runs.get(self.run)?;
        match run.get(self.at) {
            Some(&x) => {
                self.at += 1;
                Some(StackBlurrableU32(x))
            }
            None => {
                self.run += 1;
                self.at = 0;
                None
            }
        }
    }
}

#[test]
fn iterator_begins_again_when_its_source_does() {
    let runs = vec![sample(7, 1), sample(2, 2), Vec::new(), sample(11, 3)];
    let source = Runs { runs: runs.clone(), run: 0, at: 0 };
    let mut iter = StackBlurIter::new(source, 4, VecDeque::new());
    for run in &runs {
        for &e in &reference(4, run) {
            assert_eq!(iter.next(), Some(StackBlurrableU32(e)));
        }
        assert_eq!(iter.next(), None);
    }
    assert_eq!(iter.next(), None);
}

#[test]
fn iterator_over_nothing() {
    let mut iter = StackBlurIter::new(Vec::<StackBlurrableU32>::new().into_iter(), 5, VecDeque::new());
    assert_eq!(iter.next(), None);
    assert_eq!(iter.next(), None);
}

#[test]
fn radius_must_leave_room_for_the_weights() {
    let side = if usize::BITS == 64 { 1usize << 32 } else { 1usize << 16 };
    assert!(radius_in_range(0));
    assert!(radius_in_range(4096));
    // (radius + 1) squared is one more than fits
    assert!(radius_in_range(side - 1) == false);
    assert!(radius_in_range(side - 2));
    assert!(radius_in_range(usize::MAX) == false);
}

#[test]
fn draining_lasts_until_the_outputs_are_out() {
    let mut blur: StackBlur<StackBlurrableU32> = StackBlur::new(2);
    assert!(blur.is_draining() == false);
    for x in 0..5u32 {
        blur.feed(Some(StackBlurrableU32(x)));
        assert!(blur.is_draining() == false);
    }
    // two outputs are out, three are to come
    assert!(blur.feed(None).is_some());
    assert!(blur.is_draining());
    assert!(blur.feed(None).is_some());
    assert!(blur.is_draining());
    assert!(blur.feed(None).is_some());
    assert!(blur.is_draining() == false);
    assert_eq!(blur.feed(None), None);
    // with radius zero the last output comes with the end of the input
    let mut plain: StackBlur<StackBlurrableU32> = StackBlur::new(0);
    plain.feed(Some(StackBlurrableU32(1)));
    assert_eq!(plain.feed(None), Some(StackBlurrableU32(1)));
    assert!(plain.is_draining() == false);
}

fn queue_of(values: &[u32]) -> VecDeque<StackBlurrableU32> {
    values.iter().map(|&v| StackBlurrableU32(v)).collect()
}

#[test]
fn untouched_generator_hands_its_queue_back() {
    let ops = queue_of(&[9, 8, 7, 6, 5, 4, 3, 2, 1, 0]);
    let blur = StackBlur::with_ops(2, ops.clone());
    assert_eq!(blur.into_ops(), ops);
    let fresh: StackBlur<StackBlurrableU32> = StackBlur::new(2);
    assert!(fresh.into_ops().is_empty());
}

#[test]
fn nothing_fed_leaves_the_queue_alone() {
    let ops = queue_of(&[1, 2, 3]);
    let mut blur = StackBlur::with_ops(4, ops.clone());
    assert_eq!(blur.feed(None), None);
    assert_eq!(blur.feed(None), None);
    assert_eq!(blur.into_ops(), ops);
}

#[test]
fn queue_after_a_sequence_holds_its_last_window() {
    for radius in 0..5usize {
        for len in 1..12usize {
            let input = sample(len, 77);
            let mut blur = StackBlur::with_ops(radius, queue_of(&[5; 40]));
            feed_all(&mut blur, &input);
            // the last `radius + 1` places before the end, nothing where
            // the sequence had not begun
            let expected: Vec<u32> = (0..=radius)
                .map(|k| (len + k).checked_sub(radius + 1).map_or(0, |j| input[j]))
                .collect();
            let ops: Vec<u32> = blur.into_ops().into_iter().map(|v| v.0).collect();
            assert_eq!(ops, expected);
            assert!(ops.len() <= 2 * radius + 2);
        }
    }
}

#[test]
fn queue_never_outgrows_the_window() {
    let radius = 3;
    let input = sample(20, 5);
    for stop in 1..input.len() {
        let mut blur = StackBlur::with_ops(radius, queue_of(&[1; 30]));
        for &x in &input[..stop] {
            blur.feed(Some(StackBlurrableU32(x)));
        }
        assert!(blur.into_ops().len() <= 2 * radius + 2);
    }
}

#[test]
fn untouched_iterator_hands_its_queue_back_and_leaves_its_source() {
    let ops = queue_of(&[4, 4, 4]);
    let source = vec![StackBlurrableU32(1), StackBlurrableU32(2)];
    let iter = StackBlurIter::new(source.iter().copied(), 1, ops.clone());
    assert_eq!(iter.into_ops(), ops);
    // taking one output takes no more of the source than it needs
    let long: Vec<StackBlurrableU32> = (0..10).map(StackBlurrableU32).collect();
    let seen = Cell::new(0usize);
    let mut iter = StackBlurIter::new(
        long.iter().copied().inspect(|_| seen.set(seen.get() + 1)),
        2,
        VecDeque::new(),
    );
    assert_eq!(seen.get(), 0);
    assert!(iter.next().is_some());
    assert_eq!(seen.get(), 4);
}

#[test]
fn iterator_takes_as_many_values_as_each_output_needs() {
    let (radius, len) = (2usize, 7usize);
    let long: Vec<StackBlurrableU32> = (0..len as u32).map(StackBlurrableU32).collect();
    let seen = Cell::new(0usize);
    let mut iter = StackBlurIter::new(
        long.iter().copied().inspect(|_| seen.set(seen.get() + 1)),
        radius,
        VecDeque::new(),
    );
    for j in 0..len {
        assert!(iter.next().is_some());
        assert_eq!(seen.get(), len.min(j + radius + 2));
    }
    assert_eq!(iter.next(), None);
    assert_eq!(iter.next(), None);
}
