use collatz_engine::cache::ResultCache;
use collatz_engine::engine::run_engine;
use collatz_engine::record::{CacheEntry, EngineError, SequenceRecord};
use collatz_engine::render::render_report;
use collatz_engine::worker::calculate;

#[test]
fn boundary_single_input() {
    let rep = run_engine(1, 1).unwrap();
    assert_eq!(rep.len(), 1);
    assert_eq!(rep[0].initial, 1);
    assert_eq!(rep[0].steps, 0);
    assert_eq!(rep[0].visited, vec![1]);
}

#[test]
fn boundary_zero_rejected() {
    assert_eq!(run_engine(0, 1).unwrap_err(), EngineError::Input);
    assert_eq!(run_engine(0, 4).unwrap_err(), EngineError::Input);
}

#[test]
fn end_to_end_six() {
    let rep = run_engine(6, 3).unwrap();
    assert_eq!(rep.len(), 6);
    let expected_steps = [0u64, 1, 7, 2, 5, 8];
    for (i, rec) in rep.iter().enumerate() {
        assert_eq!(rec.initial, i as u64 + 1);
        assert_eq!(rec.steps, expected_steps[i]);
        assert_eq!(*rec.visited.first().unwrap(), rec.initial);
        assert_eq!(*rec.visited.last().unwrap(), 1);
    }
    assert_eq!(rep[0].visited, vec![1]);
    assert_eq!(rep[1].visited, vec![2, 1]);
    assert_eq!(rep[2].visited, vec![3, 10, 5, 16, 1]);
    assert_eq!(rep[3].visited, vec![4, 1]);
    assert_eq!(rep[4].visited, vec![5, 16, 1]);
    assert_eq!(rep[5].visited, vec![6, 3, 10, 5, 16, 1]);
}

#[test]
fn two_runs_agree() {
    let rep1 = run_engine(40, 4).unwrap();
    let rep2 = run_engine(40, 2).unwrap();
    assert_eq!(rep1.len(), rep2.len());
    for (a, b) in rep1.iter().zip(rep2.iter()) {
        assert_eq!(a.initial, b.initial);
        assert_eq!(a.steps, b.steps);
        assert_eq!(a.visited, b.visited);
    }
}

#[test]
fn report_is_sorted_without_gaps() {
    let rep = run_engine(100, 8).unwrap();
    assert_eq!(rep.len(), 100);
    for (i, rec) in rep.iter().enumerate() {
        assert_eq!(rec.initial, i as u64 + 1);
    }
}

#[test]
fn steps_match_naive_reference() {
    fn naive_steps(mut v: u64) -> u64 {
        let mut k = 0u64;
        while v != 1 {
            v = if v % 2 == 0 { v / 2 } else { 3 * v + 1 };
            k += 1;
        }
        k
    }
    let rep = run_engine(50, 4).unwrap();
    for rec in rep.iter() {
        assert_eq!(rec.steps, naive_steps(rec.initial));
    }
}

#[test]
fn worker_boundary_input_one() {
    let cache = ResultCache::with_capacity(1);
    match calculate(1, &cache) {
        CacheEntry::Done(rec) => {
            assert_eq!(rec.initial, 1);
            assert_eq!(rec.steps, 0);
            assert_eq!(rec.visited, vec![1]);
        },
        CacheEntry::Overflowed => panic!("input 1 must resolve"),
    }
    assert_eq!(cache.size(), 1);
}

#[test]
fn worker_publishes_and_respects_existing_entry() {
    let cache = ResultCache::with_capacity(8);
    let out = calculate(3, &cache);
    match out {
        CacheEntry::Done(rec) => {
            assert_eq!(rec.initial, 3);
            assert_eq!(rec.steps, 7);
            assert_eq!(rec.visited, vec![3, 10, 5, 16, 1]);
        },
        CacheEntry::Overflowed => panic!("input 3 must resolve"),
    }
    assert_eq!(cache.size(), 1);
    let fake = SequenceRecord { initial: 3, visited: vec![3, 10, 5, 16, 1], steps: 999 };
    cache.insert_if_absent(3, CacheEntry::Done(fake));
    match cache.try_get(3) {
        Some(CacheEntry::Done(rec)) => assert_eq!(rec.steps, 7),
        _ => panic!("entry for 3 must stay published"),
    }
}

#[test]
fn worker_short_circuits_through_cached_tail() {
    let cache = ResultCache::with_capacity(8);
    calculate(16, &cache);
    match cache.try_get(16) {
        Some(CacheEntry::Done(rec)) => {
            assert_eq!(rec.visited, vec![16, 1]);
            assert_eq!(rec.steps, 4);
        },
        _ => panic!("entry for 16 must exist"),
    }
    let out = calculate(3, &cache);
    match out {
        CacheEntry::Done(rec) => {
            assert_eq!(rec.initial, 3);
            assert_eq!(rec.steps, 7);
            let deduped = collatz_engine::record::dedup_adjacent(&rec.visited);
            assert_eq!(deduped, vec![3, 10, 5, 16, 1]);
        },
        CacheEntry::Overflowed => panic!("input 3 must resolve"),
    }
    assert_eq!(cache.size(), 2);
}

#[test]
fn worker_reports_overflow() {
    let cache = ResultCache::with_capacity(2);
    let out = calculate(u64::MAX, &cache);
    assert!(matches!(out, CacheEntry::Overflowed));
    assert!(matches!(cache.try_get(u64::MAX), Some(CacheEntry::Overflowed)));
}

#[test]
fn rendered_output_for_six() {
    let rep = run_engine(6, 2).unwrap();
    let text = String::from_utf8(render_report(&rep)).unwrap();
    let expected = "1: Steps: 0, Numbers: [1]\n\
                    2: Steps: 1, Numbers: [2, 1]\n\
                    3: Steps: 7, Numbers: [3, 10, 5, 16, 1]\n\
                    4: Steps: 2, Numbers: [4, 1]\n\
                    5: Steps: 5, Numbers: [5, 16, 1]\n\
                    6: Steps: 8, Numbers: [6, 3, 10, 5, 16, 1]\n";
    assert_eq!(text, expected);
}

#[test]
fn rendered_output_matches_format() {
    let rep = run_engine(3, 2).unwrap();
    let bytes = render_report(&rep);
    let text = String::from_utf8(bytes).unwrap();
    assert_eq!(
        text,
        "1: Steps: 0, Numbers: [1]\n2: Steps: 1, Numbers: [2, 1]\n3: Steps: 7, Numbers: [3, 10, 5, 16, 1]\n"
    );
}
