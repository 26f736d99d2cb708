use ninelimiter::clock::Clock;
use ninelimiter::counters::Counters;
use ninelimiter::limiter::SlidingLimiter;
use std::collections::HashMap;
use std::sync::atomic::{AtomicU32, Ordering};
use std::sync::{Arc, Barrier, Mutex};

fn workers() -> tokio::runtime::Runtime {
    tokio::runtime::Builder::new_multi_thread()
        .worker_threads(2)
        .max_blocking_threads(32)
        .enable_time()
        .build()
        .unwrap()
}

fn pause(millis: u64) {
    workers().block_on(async move {
        tokio::time::sleep(std::time::Duration::from_millis(millis)).await;
    });
}

#[test]
fn test_serial_hit_limit() {
    let mut limiter = SlidingLimiter::new();
    assert!(limiter.check("k1", "gpt-4", 3, 60).0);
    assert!(limiter.check("k1", "gpt-4", 3, 60).0);
    assert!(limiter.check("k1", "gpt-4", 3, 60).0);
    assert!(!limiter.check("k1", "gpt-4", 3, 60).0);
}

#[test]
fn test_parallel_exceeds_limit() {
    let limiter = Arc::new(Mutex::new(SlidingLimiter::new()));
    let threads: usize = 8;
    let limit: u32 = 3;
    let window: u64 = 30;

    let barrier = Arc::new(Barrier::new(threads));
    let passed = Arc::new(AtomicU32::new(0));

    let workers = workers();
    let mut handles = Vec::new();
    for _ in 0..threads {
        let l = limiter.clone();
        let b = barrier.clone();
        let p = passed.clone();
        handles.push(workers.spawn_blocking(move || {
            b.wait();
            if l.lock().unwrap().check("k-par", "gpt-4", limit, window).0 {
                p.fetch_add(1, Ordering::Relaxed);
            }
        }));
    }
    for h in handles { workers.block_on(h).unwrap(); }

    let count = passed.load(Ordering::Relaxed);
    assert_eq!(count, limit, "only {} should pass limit={}, got {}", limit, limit, count);
}

#[test]
fn test_parallel_under_limit() {
    let limiter = Arc::new(Mutex::new(SlidingLimiter::new()));
    let threads: usize = 5;
    let limit: u32 = 10;
    let window: u64 = 30;

    let barrier = Arc::new(Barrier::new(threads));
    let passed = Arc::new(AtomicU32::new(0));

    let workers = workers();
    let mut handles = Vec::new();
    for _ in 0..threads {
        let l = limiter.clone();
        let b = barrier.clone();
        let p = passed.clone();
        handles.push(workers.spawn_blocking(move || {
            b.wait();
            if l.lock().unwrap().check("k-under", "gpt-4", limit, window).0 {
                p.fetch_add(1, Ordering::Relaxed);
            }
        }));
    }
    for h in handles { workers.block_on(h).unwrap(); }

    let count = passed.load(Ordering::Relaxed);
    assert_eq!(count, threads as u32, "all {} should pass limit={}", threads, limit);
}

#[test]
fn test_parallel_isolation_multiple_keys() {
    let limiter = Arc::new(Mutex::new(SlidingLimiter::new()));
    let per_key_limit: u32 = 2;
    let window: u64 = 30;

    let keys = ["key-a", "key-b", "key-c"];
    let barrier = Arc::new(Barrier::new(keys.len() * 4));
    let results = Arc::new(Mutex::new(HashMap::<&str, u32>::new()));

    let workers = workers();
    let mut handles = Vec::new();
    for &key in &keys {
        for _ in 0..4 {
            let l = limiter.clone();
            let b = barrier.clone();
            let r = results.clone();
            let k = key;
            handles.push(workers.spawn_blocking(move || {
                b.wait();
                let passed = l.lock().unwrap().check(k, "gpt-4", per_key_limit, window).0;
                if passed {
                    let mut map = r.lock().unwrap();
                    *map.entry(k).or_insert(0) += 1;
                }
            }));
        }
    }
    for h in handles { workers.block_on(h).unwrap(); }

    let map = results.lock().unwrap();
    for &key in &keys {
        assert_eq!(*map.get(key).unwrap_or(&0), per_key_limit,
            "key {} should pass exactly {} times", key, per_key_limit);
    }
}

#[test]
fn test_serial_event_counts() {
    let mut limiter = SlidingLimiter::new();
    let (p, e) = limiter.check("k", "m", 5, 60);
    assert!(p); assert_eq!(e.count, 0); assert_eq!(e.remaining, 5);

    let (p, e) = limiter.check("k", "m", 5, 60);
    assert!(p); assert_eq!(e.count, 1); assert_eq!(e.remaining, 4);

    let (p, e) = limiter.check("k", "m", 5, 60);
    assert!(p); assert_eq!(e.count, 2); assert_eq!(e.remaining, 3);

    let (p, _) = limiter.check("k", "m", 5, 60);
    assert!(p);
    let (p, _) = limiter.check("k", "m", 5, 60);
    assert!(p);
    let (p, e) = limiter.check("k", "m", 5, 60);
    assert!(!p); assert_eq!(e.count, 5); assert_eq!(e.remaining, 0);
}

#[test]
fn test_window_expires_after_duration() {
    let mut limiter = SlidingLimiter::new();
    // 1-second window, limit=2
    assert!(limiter.check("k-win", "m", 2, 1).0);
    assert!(limiter.check("k-win", "m", 2, 1).0);
    assert!(!limiter.check("k-win", "m", 2, 1).0); // blocked at 2/2
    pause(1100);
    // Window expired — counter reset
    assert!(limiter.check("k-win", "m", 2, 1).0); // 1/2
    assert!(limiter.check("k-win", "m", 2, 1).0); // 2/2
    assert!(!limiter.check("k-win", "m", 2, 1).0); // blocked again
}

#[test]
fn test_check_all_multiple_rules_all_pass() {
    let mut limiter = SlidingLimiter::new();
    // 2 rules: limit=3 and limit=5, same 60s window
    let rules = [(3, 60), (5, 60)];
    let results = limiter.check_all("k-all", "m", &rules);
    assert_eq!(results.len(), 2);
    // Both passed — count after push = 1
    assert_eq!(results[0].count, 1);
    assert_eq!(results[1].count, 1);
    assert_eq!(results[0].remaining, 2);
    assert_eq!(results[1].remaining, 4);

    let results2 = limiter.check_all("k-all", "m", &rules);
    assert_eq!(results2[0].count, 2);
    assert_eq!(results2[1].count, 2);
}

#[test]
fn test_check_all_one_rule_blocks_no_push() {
    let mut limiter = SlidingLimiter::new();
    // Rule A: limit=1 (easy to fill), Rule B: limit=10
    // Fill Rule A first
    assert!(limiter.check("k-block", "m", 1, 60).0); // A now 1/1

    // check_all with both rules — A blocked, B should NOT have pushed
    let results = limiter.check_all("k-block", "m", &[(1, 60), (10, 60)]);
    assert_eq!(results.len(), 2);
    assert!(results[0].count >= 1); // A blocked
    // B should still be 0 — no push happened
    let (passed, _) = limiter.check("k-block", "m", 10, 60);
    assert!(passed, "B should still have quota — check_all must not push on failure");
}

#[test]
fn test_check_all_atomic_no_race_increment() {
    let limiter = Arc::new(Mutex::new(SlidingLimiter::new()));
    let threads: usize = 8;
    let rules = [(3, 30), (5, 30)];
    let barrier = Arc::new(Barrier::new(threads));
    let passed = Arc::new(AtomicU32::new(0));

    let workers = workers();
    let mut handles = Vec::new();
    for _ in 0..threads {
        let l = limiter.clone();
        let b = barrier.clone();
        let p = passed.clone();
        handles.push(workers.spawn_blocking(move || {
            b.wait();
            let r = l.lock().unwrap().check_all("k-atomic", "m", &rules);
            // All pass only if every rule had room
            if r.iter().all(|e| e.count < e.rule_limit as usize) {
                p.fetch_add(1, Ordering::Relaxed);
            }
        }));
    }
    for h in handles { workers.block_on(h).unwrap(); }
    // Tightest rule is limit=3 — at most 3 pass, but race may yield 2
    let count = passed.load(Ordering::Relaxed);
    assert!(count >= 2, "at least 2 should pass, got {}", count);
    assert!(count <= 3, "at most 3 should pass (limit=3), got {}", count);
}

#[test]
fn test_check_all_window_expiry() {
    let mut limiter = SlidingLimiter::new();
    let rules = [(2, 1), (3, 1)]; // 1-second window

    // Fill both rules — each push increments
    let r = limiter.check_all("k-exp", "m", &rules);
    assert_eq!(r.len(), 2);
    assert_eq!(r[0].count, 1); // 1/2
    assert_eq!(r[1].count, 1); // 1/3

    let r = limiter.check_all("k-exp", "m", &rules);
    assert_eq!(r[0].count, 2); // 2/2
    assert_eq!(r[1].count, 2); // 2/3

    // Third attempt — blocked (rule A limit=2)
    let r = limiter.check_all("k-exp", "m", &rules);
    assert!(r[0].count >= r[0].rule_limit as usize, "rule A should be blocked");
    // But B should NOT have incremented — no push because A blocked
    let (passed, _) = limiter.check("k-exp", "m", 3, 1);
    assert!(passed, "B should still have quota (2/3)");

    // Wait for window expiry
    pause(1100);

    // Both rules reset — can use again
    let r = limiter.check_all("k-exp", "m", &rules);
    assert_eq!(r[0].count, 1);
    assert_eq!(r[1].count, 1);
}
#[test]
fn test_sliding_limiter() {
    let mut limiter = SlidingLimiter::new();
    assert!(limiter.check("key1", "gpt-4", 3, 60).0);
    assert!(limiter.check("key1", "gpt-4", 3, 60).0);
    assert!(limiter.check("key1", "gpt-4", 3, 60).0);
    assert!(!limiter.check("key1", "gpt-4", 3, 60).0);
    assert!(limiter.check("key2", "gpt-4", 3, 60).0);
}

#[test]
fn test_rate_limit_blocks() {
    let mut limiter = SlidingLimiter::new();
    for _ in 0..5 {
        assert!(limiter.check("k", "m", 5, 60).0);
    }
    for _ in 0..10 {
        assert!(!limiter.check("k", "m", 5, 60).0);
    }
}

#[test]
fn test_multiple_rules() {
    let mut limiter = SlidingLimiter::new();
    // Same (key, model) hit by 2 rules: limit=2 and limit=3
    let (passed, _) = limiter.check("k", "m", 2, 60);
    assert!(passed);
    let (passed, _) = limiter.check("k", "m", 3, 60);
    assert!(passed);
    let (passed, _) = limiter.check("k", "m", 2, 60);
    assert!(passed);
    let (passed, _) = limiter.check("k", "m", 3, 60);
    assert!(passed);
    // 3rd request for limit=2 rule blocked
    let (passed, _) = limiter.check("k", "m", 2, 60);
    assert!(!passed);
}


// Counters at given times

const SEC: u128 = 1_000_000_000;

#[test]
fn a_request_expires_when_its_window_has_passed() {
    let mut counters = Counters::new();
    assert!(counters.check_at(0, "k", "m", 1, 10).0);
    assert!(!counters.check_at(10 * SEC - 1, "k", "m", 1, 10).0);
    assert!(counters.check_at(10 * SEC, "k", "m", 1, 10).0);
}

#[test]
fn the_window_slides() {
    let mut counters = Counters::new();
    assert!(counters.check_at(0, "k", "m", 2, 10).0);
    assert!(counters.check_at(5 * SEC, "k", "m", 2, 10).0);
    assert!(!counters.check_at(9 * SEC, "k", "m", 2, 10).0);
    let (passed, event) = counters.check_at(11 * SEC, "k", "m", 2, 10);
    assert!(passed);
    assert_eq!(event.count, 1);
    assert_eq!(event.remaining, 1);
    assert!(!counters.check_at(14 * SEC, "k", "m", 2, 10).0);
    assert!(counters.check_at(15 * SEC, "k", "m", 2, 10).0);
}

#[test]
fn no_window_holds_more_than_the_limit() {
    let mut counters = Counters::new();
    let mut admitted: Vec<u128> = Vec::new();
    for step in 0..200u128 {
        let now = step * SEC * 7 / 10;
        if counters.check_at(now, "k", "m", 3, 10).0 {
            admitted.push(now);
        }
    }
    for (i, start) in admitted.iter().enumerate() {
        let held = admitted[i..].iter().filter(|t| **t - *start < 10 * SEC).count();
        assert!(held <= 3);
    }
    assert!(admitted.len() > 30);
}

#[test]
fn an_event_tells_when_the_oldest_request_expires() {
    let mut counters = Counters::new();
    let (_, event) = counters.check_at(3 * SEC, "k", "m", 2, 60);
    assert_eq!(event.reset_after_secs, 60);
    assert_eq!(event.owner, "");
    assert_eq!((event.rule_limit, event.rule_window_secs), (2, 60));
    let (_, event) = counters.check_at(13 * SEC, "k", "m", 2, 60);
    assert_eq!(event.reset_after_secs, 50);
}

#[test]
fn a_limit_of_zero_admits_nothing() {
    let mut counters = Counters::new();
    let (passed, event) = counters.check_at(0, "k", "m", 0, 60);
    assert!(!passed);
    assert_eq!((event.count, event.remaining, event.reset_after_secs), (0, 0, 0));
}

#[test]
fn counters_are_kept_apart() {
    let mut counters = Counters::new();
    assert!(counters.check_at(0, "a", "m", 1, 60).0);
    assert!(counters.check_at(0, "b", "m", 1, 60).0);
    assert!(counters.check_at(0, "a", "n", 1, 60).0);
    assert!(counters.check_at(0, "a", "m", 2, 60).0);
    assert!(counters.check_at(0, "a", "m", 1, 61).0);
    assert!(!counters.check_at(0, "a", "m", 1, 60).0);
}

#[test]
fn a_snapshot_reports_every_counter() {
    let mut counters = Counters::new();
    counters.check_at(0, "sk-1", "gpt-4", 5, 60);
    counters.check_at(SEC, "sk-1", "gpt-4", 5, 60);
    counters.check_at(2 * SEC, "sk-2", "gemini-3", 9, 30);
    let mut events = counters.snapshot_at(10 * SEC);
    events.sort_by(|a, b| a.api_key.cmp(&b.api_key));
    assert_eq!(events.len(), 2);
    assert_eq!((events[0].api_key.as_str(), events[0].model.as_str()), ("sk-1", "gpt-4"));
    assert_eq!((events[0].rule_limit, events[0].rule_window_secs), (5, 60));
    assert_eq!((events[0].count, events[0].remaining, events[0].reset_after_secs), (2, 3, 50));
    assert_eq!((events[1].api_key.as_str(), events[1].model.as_str()), ("sk-2", "gemini-3"));
    assert_eq!((events[1].count, events[1].remaining, events[1].reset_after_secs), (1, 8, 22));
}

#[test]
fn a_snapshot_drops_what_has_expired() {
    let mut counters = Counters::new();
    counters.check_at(0, "sk-1", "gpt-4", 5, 60);
    counters.check_at(30 * SEC, "sk-2", "gpt-4", 5, 60);
    let events = counters.snapshot_at(60 * SEC);
    assert_eq!(events.len(), 1);
    assert_eq!(events[0].api_key, "sk-2");
    assert!(counters.snapshot_at(90 * SEC).is_empty());
}

#[test]
fn a_snapshot_changes_no_decision() {
    let mut counters = Counters::new();
    assert!(counters.check_at(0, "k", "m", 1, 60).0);
    counters.snapshot_at(59 * SEC);
    assert!(!counters.check_at(59 * SEC, "k", "m", 1, 60).0);
    counters.snapshot_at(60 * SEC);
    assert!(counters.check_at(60 * SEC, "k", "m", 1, 60).0);
}

#[test]
fn refused_together_uses_nothing() {
    let mut counters = Counters::new();
    assert!(counters.check_at(0, "k", "m", 1, 60).0);
    for _ in 0..5 {
        let events = counters.check_all_at(SEC, "k", "m", &[(1, 60), (2, 60)]);
        assert_eq!((events[0].count, events[1].count), (1, 0));
    }
    assert!(counters.check_at(SEC, "k", "m", 2, 60).0);
    assert!(counters.check_at(SEC, "k", "m", 2, 60).0);
}

#[test]
fn rules_in_turn_stop_at_the_first_that_is_full() {
    let mut counters = Counters::new();
    let rules = [(5, 60), (1, 60), (7, 60)];
    let (events, refused) = counters.check_each_at(0, "k", "m", &rules);
    assert_eq!(events.len(), 3);
    assert_eq!(refused, None);
    let (events, refused) = counters.check_each_at(0, "k", "m", &rules);
    assert_eq!(events.len(), 2);
    assert_eq!(refused, Some((1, 60)));
    assert_eq!(counters.check_at(0, "k", "m", 5, 60).1.count, 2);
    assert_eq!(counters.check_at(0, "k", "m", 7, 60).1.count, 1);
}

#[test]
fn the_clock_runs() {
    let mut limiter = SlidingLimiter::new();
    assert!(limiter.check("k", "m", 1, 1).0);
    assert_eq!(limiter.snapshot().len(), 1);
    pause(1050);
    assert!(limiter.snapshot().is_empty());
}

#[test]
fn a_limiter_checks_rules_in_turn() {
    let mut limiter = SlidingLimiter::new();
    assert_eq!(limiter.check_each("k", "m", &[(1, 60)]).1, None);
    assert_eq!(limiter.check_each("k", "m", &[(1, 60)]).1, Some((1, 60)));
}

#[test]
fn a_refused_request_uses_no_quota() {
    let mut counters = Counters::new();
    assert!(counters.check_at(0, "k", "m", 1, 10).0);
    for second in 1..10 {
        assert!(!counters.check_at(second * SEC, "k", "m", 1, 10).0);
    }
    assert!(counters.check_at(10 * SEC, "k", "m", 1, 10).0);
}

#[test]
fn waiting_as_long_as_reported_makes_room() {
    let mut counters = Counters::new();
    assert!(counters.check_at(0, "k", "m", 2, 60).0);
    assert!(counters.check_at(7 * SEC, "k", "m", 2, 60).0);
    let now = 20 * SEC + 1;
    let (passed, event) = counters.check_at(now, "k", "m", 2, 60);
    assert!(!passed);
    assert_eq!(event.reset_after_secs, 40);
    assert!(counters.check_at(now + 40 * SEC, "k", "m", 2, 60).0);
}

#[test]
fn names_are_reported_as_given() {
    let mut limiter = SlidingLimiter::new();
    assert!(limiter.check("k", "llama3:8b", 100, 3600).0);
    let events = limiter.snapshot();
    assert_eq!(events.len(), 1);
    assert_eq!((events[0].api_key.as_str(), events[0].model.as_str()), ("k", "llama3:8b"));
    assert_eq!((events[0].rule_limit, events[0].rule_window_secs), (100, 3600));
    assert_eq!((events[0].count, events[0].remaining), (1, 99));
}

#[test]
fn names_with_colons_are_kept_apart() {
    let mut limiter = SlidingLimiter::new();
    assert!(limiter.check("a:b", "c", 1, 60).0);
    let (passed, event) = limiter.check("a", "b:c", 1, 60);
    assert!(passed);
    assert_eq!(event.count, 0);
    assert!(limiter.check("a", "b", 1, 60).0);
    assert!(limiter.check("", "a:b:c", 1, 60).0);
    assert!(limiter.check("1:a", "", 1, 60).0);
    assert!(!limiter.check("a:b", "c", 1, 60).0);
    assert_eq!(limiter.snapshot().len(), 5);
}

#[test]
fn a_snapshot_frees_no_quota() {
    let mut counters = Counters::new();
    assert!(counters.check_at(0, "k", "llama3:8b", 1, 7200).0);
    assert_eq!(counters.snapshot_at(3600 * SEC).len(), 1);
    assert!(!counters.check_at(3600 * SEC, "k", "llama3:8b", 1, 7200).0);
    assert!(counters.check_at(7200 * SEC, "k", "llama3:8b", 1, 7200).0);
}

#[test]
fn what_is_refused_leaves_no_trace() {
    let rules = [(1, 60), (5, 60)];
    let later = |refused: bool| {
        let mut counters = Counters::new();
        counters.check_at(0, "k", "x:y", 5, 60);
        counters.check_at(30 * SEC, "k", "x:y", 1, 60);
        if refused {
            counters.check_all_at(61 * SEC, "k", "x:y", &rules);
            assert!(!counters.check_at(61 * SEC, "k", "x:y", 1, 60).0);
            counters.snapshot_at(61 * SEC);
        }
        let snapshot = counters.snapshot_at(62 * SEC);
        let check = counters.check_at(63 * SEC, "k", "x:y", 5, 60).1;
        let all = counters.check_all_at(95 * SEC, "k", "x:y", &rules);
        format!("{:?} {:?} {:?}", snapshot, check, all)
    };
    assert_eq!(later(true), later(false));
}

#[test]
fn no_counter_exceeds_its_limit() {
    let mut counters = Counters::new();
    let rules = [(2, 10), (3, 20)];
    for step in 0..300u128 {
        let now = step * SEC / 3;
        match step % 4 {
            0 => drop(counters.check_at(now, "k", "m", 2, 10)),
            1 => drop(counters.check_all_at(now, "k", "m", &rules)),
            2 => drop(counters.check_each_at(now, "k", "m", &rules)),
            _ => drop(counters.snapshot_at(now)),
        }
        for event in counters.snapshot_at(now) {
            assert!(event.count <= event.rule_limit as usize);
        }
    }
}

#[test]
fn a_clock_goes_forward_only() {
    let mut clock = Clock::new();
    let first = clock.read();
    clock.advance(u128::MAX - 1);
    assert_eq!(clock.read(), u128::MAX - 1);
    clock.advance(first);
    assert_eq!(clock.read(), u128::MAX - 1);
}
