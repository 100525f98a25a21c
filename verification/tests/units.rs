use collatz_engine::collector::build_report;
use collatz_engine::record::{
    check_record, dedup_adjacent, CacheEntry, EngineError, SequenceRecord,
};
use collatz_engine::render::{push_decimal, render_report};
use collatz_engine::stepper::{collatz_step, split_even};

fn rec(initial: u64, visited: Vec<u64>, steps: u64) -> SequenceRecord {
    SequenceRecord { initial, visited, steps }
}

#[test]
fn stepper_even_collapses_halvings() {
    assert_eq!(collatz_step(2), Some((1, 1)));
    assert_eq!(collatz_step(16), Some((1, 4)));
    assert_eq!(collatz_step(12), Some((3, 2)));
    assert_eq!(collatz_step(10), Some((5, 1)));
}

#[test]
fn stepper_odd_triples_and_increments() {
    assert_eq!(collatz_step(3), Some((10, 1)));
    assert_eq!(collatz_step(5), Some((16, 1)));
    assert_eq!(collatz_step(7), Some((22, 1)));
}

#[test]
fn stepper_overflow_is_detected() {
    assert_eq!(collatz_step(u64::MAX), None);
    let largest_safe_odd = 6148914691236517203u64;
    assert_eq!(collatz_step(largest_safe_odd), Some((3 * largest_safe_odd + 1, 1)));
    assert_eq!(collatz_step(largest_safe_odd + 2), None);
}

#[test]
fn split_even_strips_factors_of_two() {
    assert_eq!(split_even(48), (3, 4));
    assert_eq!(split_even(6), (3, 1));
    assert_eq!(split_even(7), (7, 0));
    assert_eq!(split_even(1), (1, 0));
    assert_eq!(split_even(1u64 << 63), (1, 63));
}

#[test]
fn dedup_collapses_adjacent_repeats_only() {
    assert_eq!(dedup_adjacent(&vec![1, 1, 2, 2, 1]), vec![1, 2, 1]);
    assert_eq!(dedup_adjacent(&vec![]), Vec::<u64>::new());
    assert_eq!(dedup_adjacent(&vec![5, 5, 5, 5]), vec![5]);
    assert_eq!(dedup_adjacent(&vec![3, 10, 10, 5, 16, 1]), vec![3, 10, 5, 16, 1]);
}

#[test]
fn dedup_twice_is_dedup_once() {
    let raw = vec![9, 9, 4, 4, 4, 7, 9, 9];
    let once = dedup_adjacent(&raw);
    let twice = dedup_adjacent(&once);
    assert_eq!(once, twice);
    assert_eq!(once, vec![9, 4, 7, 9]);
}

#[test]
fn check_record_accepts_valid_records() {
    assert!(check_record(&rec(3, vec![3, 10, 5, 16, 1], 7)));
    assert!(check_record(&rec(1, vec![1], 0)));
    assert!(check_record(&rec(3, vec![3, 10, 10, 5, 16, 1], 7)));
    assert!(check_record(&rec(6, vec![6, 3, 10, 5, 16, 1], 8)));
}

#[test]
fn check_record_rejects_broken_records() {
    assert!(!check_record(&rec(3, vec![3, 10, 5, 16, 1], 6)));
    assert!(!check_record(&rec(4, vec![3, 10, 5, 16, 1], 7)));
    assert!(!check_record(&rec(3, vec![3, 11, 5, 16, 1], 7)));
    assert!(!check_record(&rec(3, vec![3, 10, 5, 16], 3)));
    assert!(!check_record(&rec(3, vec![], 0)));
}

#[test]
fn build_report_orders_and_dedups() {
    let entries = vec![
        CacheEntry::Done(rec(3, vec![3, 10, 10, 5, 16, 1], 7)),
        CacheEntry::Done(rec(1, vec![1], 0)),
        CacheEntry::Done(rec(2, vec![2, 1], 1)),
    ];
    let rep = build_report(entries, 3).unwrap();
    assert_eq!(rep.len(), 3);
    assert_eq!(rep[0].initial, 1);
    assert_eq!(rep[1].initial, 2);
    assert_eq!(rep[2].initial, 3);
    assert_eq!(rep[2].visited, vec![3, 10, 5, 16, 1]);
    assert_eq!(rep[2].steps, 7);
}

#[test]
fn build_report_rejects_gaps_and_duplicates() {
    let missing = vec![
        CacheEntry::Done(rec(1, vec![1], 0)),
        CacheEntry::Done(rec(3, vec![3, 10, 5, 16, 1], 7)),
    ];
    assert_eq!(build_report(missing, 3).unwrap_err(), EngineError::Incomplete);
    let duplicated = vec![
        CacheEntry::Done(rec(1, vec![1], 0)),
        CacheEntry::Done(rec(1, vec![1], 0)),
    ];
    assert_eq!(build_report(duplicated, 2).unwrap_err(), EngineError::Incomplete);
    let short = vec![CacheEntry::Done(rec(1, vec![1], 0))];
    assert_eq!(build_report(short, 2).unwrap_err(), EngineError::Incomplete);
    let invalid = vec![CacheEntry::Done(rec(1, vec![1], 5))];
    assert_eq!(build_report(invalid, 1).unwrap_err(), EngineError::Incomplete);
}

#[test]
fn build_report_reports_overflow() {
    let entries = vec![
        CacheEntry::Done(rec(1, vec![1], 0)),
        CacheEntry::Overflowed,
    ];
    assert_eq!(build_report(entries, 2).unwrap_err(), EngineError::Overflow);
}

#[test]
fn build_report_empty_run() {
    let rep = build_report(Vec::new(), 0).unwrap();
    assert!(rep.is_empty());
}

#[test]
fn decimal_rendering() {
    let mut out = Vec::new();
    push_decimal(&mut out, 0);
    push_decimal(&mut out, 907);
    push_decimal(&mut out, u64::MAX);
    assert_eq!(String::from_utf8(out).unwrap(), "090718446744073709551615");
}

#[test]
fn render_single_record() {
    let rep = vec![rec(4, vec![4, 1], 2)];
    let bytes = render_report(&rep);
    assert_eq!(String::from_utf8(bytes).unwrap(), "4: Steps: 2, Numbers: [4, 1]\n");
}
