use r4g_base::splitter::utils::sliding_windows;
use std::ops::Range;

#[test]
fn basic_non_overlapping() {
    let ranges: Vec<_> = sliding_windows(10, 3, 0, false).into_iter().collect();
    assert_eq!(ranges, vec![0..3, 3..6, 6..9]);
}

#[test]
fn overlapping_ranges() {
    let ranges: Vec<_> = sliding_windows(8, 5, 2, true).into_iter().collect();
    assert_eq!(ranges, vec![0..5, 2..7, 4..8]);
}

#[test]
fn utils_with_tail() {
    let ranges: Vec<_> = sliding_windows(10, 4, 0, true).into_iter().collect();
    assert_eq!(ranges, vec![0..4, 4..8, 8..10]);
}

#[test]
fn n_greater_than_len_with_tail() {
    let ranges: Vec<_> = sliding_windows(5, 10, 0, true).into_iter().collect();
    assert_eq!(ranges, vec![0..5]);
}

#[test]
fn n_greater_than_len_without_tail() {
    let ranges: Vec<_> = sliding_windows(5, 10, 0, false).into_iter().collect();
    assert!(ranges.is_empty());
}

#[test]
fn empty_input() {
    let ranges: Vec<_> = sliding_windows(0, 3, 0, false).into_iter().collect();
    assert!(ranges.is_empty());
}

#[test]
fn zero_width_ranges() {
    let ranges: Vec<_> = sliding_windows(3, 0, 1, false).into_iter().collect();
    assert_eq!(ranges, vec![0..0, 1..1, 2..2, 3..3]);
}

#[test]
fn empty_input_with_tail() {
    assert!(sliding_windows(0, 3, 0, true).is_empty());
    assert!(sliding_windows(0, 1, 5, true).is_empty());
}

#[test]
fn zero_size_and_zero_step_gives_one_empty_window() {
    assert_eq!(sliding_windows(5, 0, 0, false), vec![0..0]);
    assert_eq!(sliding_windows(5, 0, 0, true), vec![0..0]);
    assert_eq!(sliding_windows(0, 0, 0, true), vec![0..0]);
}

#[test]
fn zero_size_on_empty_input() {
    assert_eq!(sliding_windows(0, 0, 1, false), vec![0..0]);
    assert_eq!(sliding_windows(0, 0, 7, true), vec![0..0]);
}

#[test]
fn zero_size_has_no_tail() {
    assert_eq!(sliding_windows(5, 0, 2, true), vec![0..0, 2..2, 4..4]);
    assert_eq!(sliding_windows(4, 0, 2, true), vec![0..0, 2..2, 4..4]);
}

#[test]
fn exact_fit_has_no_tail() {
    assert_eq!(sliding_windows(9, 3, 0, true), vec![0..3, 3..6, 6..9]);
    assert_eq!(sliding_windows(3, 3, 0, true), vec![0..3]);
}

#[test]
fn step_equal_to_size_is_like_step_zero() {
    for len in 0..20 {
        for n in 1..6 {
            for keep_tail in [false, true] {
                assert_eq!(
                    sliding_windows(len, n, n, keep_tail),
                    sliding_windows(len, n, 0, keep_tail)
                );
            }
        }
    }
}

#[test]
fn step_larger_than_size_leaves_gaps() {
    assert_eq!(sliding_windows(10, 2, 4, true), vec![0..2, 4..6, 8..10]);
    assert_eq!(sliding_windows(10, 2, 3, true), vec![0..2, 3..5, 6..8, 9..10]);
    assert_eq!(sliding_windows(10, 2, 3, false), vec![0..2, 3..5, 6..8]);
    assert_eq!(sliding_windows(10, 2, 100, true), vec![0..2]);
}

#[test]
fn tail_follows_the_last_start_visited() {
    assert_eq!(sliding_windows(8, 5, 2, false), vec![0..5, 2..7]);
    assert_eq!(sliding_windows(7, 5, 1, true), vec![0..5, 1..6, 2..7, 3..7]);
}

#[test]
fn largest_lengths_do_not_overflow() {
    let max = usize::MAX;
    assert_eq!(sliding_windows(max, max, 1, false), vec![0..max]);
    assert_eq!(sliding_windows(max, max - 1, max, true), vec![0..max - 1]);
    assert_eq!(sliding_windows(max, max - 1, 0, true), vec![0..max - 1, max - 1..max]);
    assert_eq!(sliding_windows(max, 0, max, false), vec![0..0, max..max]);
    assert_eq!(sliding_windows(max - 1, max, max, true), vec![0..max - 1]);
}

#[test]
fn same_parameters_same_ranges() {
    for len in 0..12 {
        for n in 0..5 {
            for step in 0..5 {
                for keep_tail in [false, true] {
                    let first = sliding_windows(len, n, step, keep_tail);
                    let second = sliding_windows(len, n, step, keep_tail);
                    assert_eq!(first, second);
                }
            }
        }
    }
}

fn expected(len: usize, n: usize, step: usize, keep_tail: bool) -> Vec<Range<usize>> {
    let hop = if step == 0 { n } else { step };
    let mut out = Vec::new();
    if n <= len && hop == 0 {
        out.push(0..0);
        return out;
    }
    let mut k = 0;
    while k * hop + n <= len {
        out.push(k * hop..k * hop + n);
        k += 1;
    }
    if keep_tail && k * hop < len {
        out.push(k * hop..len);
    }
    out
}

#[test]
fn starts_are_the_multiples_of_the_hop_that_fit() {
    for len in 0..25 {
        for n in 0..8 {
            for step in 0..8 {
                for keep_tail in [false, true] {
                    assert_eq!(
                        sliding_windows(len, n, step, keep_tail),
                        expected(len, n, step, keep_tail)
                    );
                }
            }
        }
    }
}

#[test]
fn ranges_stay_within_length_and_starts_increase() {
    for len in 0..25 {
        for n in 0..8 {
            for step in 0..8 {
                let ranges = sliding_windows(len, n, step, true);
                for r in &ranges {
                    assert!(r.start <= r.end && r.end <= len);
                    if n == 0 {
                        assert_eq!(r.start, r.end);
                    }
                }
                for pair in ranges.windows(2) {
                    assert!(pair[0].start < pair[1].start);
                }
                let full = sliding_windows(len, n, step, false);
                assert!(ranges.len() == full.len() || ranges.len() == full.len() + 1);
                assert_eq!(&ranges[..full.len()], &full[..]);
                for r in &full {
                    assert_eq!(r.end - r.start, n);
                }
                if ranges.len() > full.len() {
                    let tail = &ranges[full.len()];
                    assert_eq!(tail.end, len);
                    assert!(tail.start < len && tail.end - tail.start < n);
                }
            }
        }
    }
}
