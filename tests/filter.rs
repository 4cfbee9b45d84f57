use std::collections::HashSet;

use fast_bunkai::{filter_keys, filter_previous_rule_same_span, fresh_flags, kept_count, Span, SpanKey};

fn span(rule: &str, start: usize, end: usize) -> Span {
    Span {
        rule_name: rule.to_string(),
        start,
        end,
        split_type: None,
        split_value: None,
    }
}

fn keys(spans: &[Span]) -> Vec<SpanKey> {
    spans.iter().map(|s| (s.start, s.end)).collect()
}

fn build_fixture(curr_len: usize, prev_len: usize) -> (Vec<SpanKey>, Vec<SpanKey>) {
    let mut previous = Vec::with_capacity(prev_len);
    for i in 0..prev_len {
        previous.push((i * 4, i * 4 + 1));
    }
    let mut current: Vec<SpanKey> = Vec::with_capacity(curr_len);
    for i in 0..curr_len {
        if i % 11 == 0 && !previous.is_empty() {
            current.push(previous[i % prev_len]);
        } else if i % 7 == 0 && !current.is_empty() {
            current.push(*current.last().unwrap());
        } else {
            let base = curr_len + i * 3;
            current.push((base, base + 1));
        }
    }
    (current, previous)
}

fn naive_kept(current: &[SpanKey], previous: &[SpanKey]) -> usize {
    let mut n = 0;
    for (i, k) in current.iter().enumerate() {
        if !previous.contains(k) && !current[..i].contains(k) {
            n += 1;
        }
    }
    n + previous.len()
}

fn hashed_kept(current: &[SpanKey], previous: &[SpanKey]) -> usize {
    let prev: HashSet<SpanKey> = previous.iter().copied().collect();
    let mut seen = HashSet::new();
    let mut n = 0;
    for k in current {
        if prev.contains(k) || !seen.insert(*k) {
            continue;
        }
        n += 1;
    }
    n + previous.len()
}

#[test]
fn filter_drops_previous_and_repeated_keys() {
    let previous: Vec<SpanKey> = vec![(0, 1), (4, 5)];
    let current = vec![span("a", 0, 1), span("a", 8, 9), span("b", 8, 9), span("a", 12, 13)];
    let out = filter_previous_rule_same_span(&previous, current);
    assert_eq!(keys(&out), vec![(8, 9), (12, 13)]);
    assert_eq!(out[0].rule_name, "a");
}

#[test]
fn filter_keys_reports_kept_positions() {
    let previous: Vec<SpanKey> = vec![(0, 1), (4, 5)];
    let current: Vec<SpanKey> = vec![(0, 1), (8, 9), (8, 9), (12, 13)];
    assert_eq!(filter_keys(&previous, &current), vec![1, 3]);
    assert_eq!(fresh_flags(&previous, &current), vec![false, true, false, true]);
    assert_eq!(kept_count(&previous, &current), 4);
}

#[test]
fn first_of_equal_keys_wins() {
    let previous: Vec<SpanKey> = Vec::new();
    let current = vec![span("first", 3, 5), span("second", 3, 5), span("third", 1, 2)];
    let out = filter_previous_rule_same_span(&previous, current);
    assert_eq!(keys(&out), vec![(3, 5), (1, 2)]);
    assert_eq!(out[0].rule_name, "first");
}

#[test]
fn overlapping_distinct_keys_both_survive() {
    let previous: Vec<SpanKey> = vec![(2, 6)];
    let current = vec![span("a", 2, 5), span("a", 3, 6), span("a", 2, 6)];
    let out = filter_previous_rule_same_span(&previous, current);
    assert_eq!(keys(&out), vec![(2, 5), (3, 6)]);
}

#[test]
fn keys_differing_only_in_one_half_stay_apart() {
    let big = usize::MAX;
    let previous: Vec<SpanKey> = vec![(0, big)];
    let current: Vec<SpanKey> = vec![(1, 0), (0, 1), (big, big), (0, big), (big, 0)];
    assert_eq!(filter_keys(&previous, &current), vec![0, 1, 2, 4]);
}

#[test]
fn filter_of_empty_inputs_is_empty() {
    let previous: Vec<SpanKey> = Vec::new();
    let out = filter_previous_rule_same_span(&previous, Vec::new());
    assert!(out.is_empty());
    assert_eq!(kept_count(&previous, &Vec::new()), 0);
}

#[test]
fn kept_count_matches_naive_reference_on_small_inputs() {
    for &(curr, prev) in &[(0, 0), (1, 0), (50, 10), (200, 100), (300, 7)] {
        let (current, previous) = build_fixture(curr, prev);
        assert_eq!(kept_count(&previous, &current), naive_kept(&current, &previous));
    }
}

#[test]
fn kept_count_at_large_sizes() {
    for &(curr, prev) in &[(1_000, 1_000), (10_000, 5_000), (20_000, 10_000)] {
        let (current, previous) = build_fixture(curr, prev);
        let expected = hashed_kept(&current, &previous);
        assert_eq!(kept_count(&previous, &current), expected);
        let prev_set: HashSet<SpanKey> = previous.iter().copied().collect();
        let unique_new: HashSet<SpanKey> = current
            .iter()
            .copied()
            .filter(|k| !prev_set.contains(k))
            .collect();
        assert_eq!(expected, prev + unique_new.len());
        assert_eq!(filter_keys(&previous, &current).len(), unique_new.len());
    }
}
