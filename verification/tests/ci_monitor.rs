use mvis::ci::{
    check_results, compute_growth_rate, diff_only_needs_leak_check, exit_after_export, growth_rate_over,
    judge_sample, parse_ci_args, record_growth_sample, report_blocks, report_path, resolve_name, AppError,
    FuzzyMatch, Sample, Verdict,
};
use mvis::export::FormatType;
use mvis::types::{HeapBlock, RegionProtect};
use std::collections::VecDeque;
use std::time::{Duration, Instant};

fn argv(rest: &[&str]) -> Vec<String> {
    let mut v = vec!["mvis".to_string(), "ci".to_string()];
    v.extend(rest.iter().map(|s| s.to_string()));
    v
}

// Sample times are nanoseconds since a fixed reference instant.
fn clock() -> (Instant, impl Fn(Instant) -> u128) {
    let now = Instant::now();
    let base = now - Duration::from_secs(60);
    (now, move |t: Instant| t.duration_since(base).as_nanos())
}

#[test]
fn rate_detected_correctly() {
    let (now, ns) = clock();
    let mut samples = VecDeque::new();
    samples.push_back((ns(now - Duration::from_secs(5)), 0));
    samples.push_back((ns(now), 5 * 1024 * 1024)); // 1 MB/s over 5s
    let rate = compute_growth_rate(&samples, ns(now)).unwrap();
    assert!(rate > 900_000 && rate < 1_100_000); // ~1 MB/s
}

#[test]
fn single_sample_returns_none() {
    let (now, ns) = clock();
    let mut samples = VecDeque::new();
    samples.push_back((ns(now), 1024));
    assert!(compute_growth_rate(&samples, ns(now)).is_none());
}

#[test]
fn sub_second_window_returns_none() {
    let (now, ns) = clock();
    let mut samples = VecDeque::new();
    samples.push_back((ns(now - Duration::from_millis(500)), 0));
    samples.push_back((ns(now), 1024 * 1024));
    assert!(compute_growth_rate(&samples, ns(now)).is_none());
}

#[test]
fn shrinking_heap_returns_zero() {
    let (now, ns) = clock();
    let mut samples = VecDeque::new();
    samples.push_back((ns(now - Duration::from_secs(5)), 10 * 1024 * 1024));
    samples.push_back((ns(now), 5 * 1024 * 1024)); // heap shrank
    let rate = compute_growth_rate(&samples, ns(now)).unwrap();
    assert_eq!(rate, 0);
}

#[test]
fn growth_rate_is_exact_and_rounds_down() {
    assert_eq!(growth_rate_over(5_000_000_000, 0, 5 * 1024 * 1024), Some(1_048_576));
    assert_eq!(growth_rate_over(3_000_000_000, 100, 110), Some(3));
    assert_eq!(growth_rate_over(999_999_999, 0, 1_000_000), None);
    assert_eq!(growth_rate_over(1_000_000_000, 0, u64::MAX), Some(u64::MAX));
    assert_eq!(growth_rate_over(2_000_000_000, 50, 10), Some(0));
}

#[test]
fn growth_rate_uses_the_elapsed_time_of_the_oldest_sample() {
    let mut samples = VecDeque::new();
    samples.push_back((10_000_000_000u128, 1000));
    samples.push_back((13_000_000_000u128, 999_999));
    samples.push_back((14_000_000_000u128, 5000));
    assert_eq!(compute_growth_rate(&samples, 14_000_000_000), Some(1000));
    // a "now" before the oldest sample counts as no time at all
    assert_eq!(compute_growth_rate(&samples, 9_000_000_000), None);
}

#[test]
fn window_drops_samples_older_than_five_seconds() {
    let s = 1_000_000_000u128;
    let mut samples = VecDeque::new();
    samples.push_back((1 * s, 1));
    samples.push_back((4 * s, 2));
    samples.push_back((7 * s, 3));
    record_growth_sample(&mut samples, 10 * s, 4);
    let bytes: Vec<u64> = samples.iter().map(|x| x.1).collect();
    assert_eq!(bytes, vec![3, 4]);
}

#[test]
fn window_keeps_a_sample_exactly_five_seconds_old() {
    let s = 1_000_000_000u128;
    let mut samples = VecDeque::new();
    samples.push_back((5 * s, 1));
    record_growth_sample(&mut samples, 10 * s, 2);
    assert_eq!(samples.len(), 2);
    record_growth_sample(&mut samples, 10 * s + 1, 3);
    let bytes: Vec<u64> = samples.iter().map(|x| x.1).collect();
    assert_eq!(bytes, vec![2, 3]);
}

fn sample(elapsed_secs: u64) -> Sample {
    Sample {
        elapsed_nanos: elapsed_secs as u128 * 1_000_000_000,
        running: true,
        memory: None,
        heap_growth: None,
        growth_rate: None,
    }
}

#[test]
fn verdict_follows_the_order_of_checks() {
    let args = parse_ci_args(&argv(&[
        "--pid", "1", "--duration", "10", "--max-memory", "1", "--leak-check", "--growth-rate", "100",
    ]))
    .unwrap();
    assert_eq!(judge_sample(&args, &sample(3)), Verdict::Continue);
    assert_eq!(judge_sample(&args, &sample(10)), Verdict::Finished);

    let mut s = sample(3);
    s.memory = Some(2 * 1024 * 1024);
    s.heap_growth = Some(1);
    s.growth_rate = Some(200);
    assert_eq!(judge_sample(&args, &s), Verdict::MemoryExceeded { limit: 1024 * 1024, current: 2 * 1024 * 1024 });
    s.memory = Some(1024 * 1024);
    assert_eq!(judge_sample(&args, &s), Verdict::LeakDetected { growth: 1 });
    s.heap_growth = Some(0);
    assert_eq!(judge_sample(&args, &s), Verdict::GrowthExceeded { limit: 100, rate: 200 });
    s.growth_rate = Some(100);
    assert_eq!(judge_sample(&args, &s), Verdict::Continue);
    s.running = false;
    assert_eq!(judge_sample(&args, &s), Verdict::Finished);
}

#[test]
fn unset_limits_are_not_checked() {
    let args = parse_ci_args(&argv(&["--pid", "1"])).unwrap();
    let mut s = sample(1_000_000);
    s.memory = Some(u64::MAX);
    s.heap_growth = Some(i64::MAX);
    s.growth_rate = Some(u64::MAX);
    assert_eq!(judge_sample(&args, &s), Verdict::Continue);
}

#[test]
fn exit_codes_of_verdicts() {
    assert_eq!(Verdict::Continue.exit_code(), 0);
    assert_eq!(Verdict::Finished.exit_code(), 0);
    assert_eq!(Verdict::LeakDetected { growth: 5 }.exit_code(), 2);
    assert_eq!(Verdict::MemoryExceeded { limit: 1, current: 2 }.exit_code(), 2);
    assert_eq!(Verdict::GrowthExceeded { limit: 1, rate: 2 }.exit_code(), 2);
    assert_eq!(exit_after_export(0, false), 1);
    assert_eq!(exit_after_export(2, false), 2);
    assert_eq!(exit_after_export(0, true), 0);
}

#[test]
fn diff_only_requires_leak_check() {
    let args = parse_ci_args(&argv(&["--diff-only"])).unwrap();
    assert!(diff_only_needs_leak_check(&args));
    let args = parse_ci_args(&argv(&["--diff-only", "--leak-check"])).unwrap();
    assert!(!diff_only_needs_leak_check(&args));
}

fn block(address: usize, size: usize) -> HeapBlock {
    HeapBlock { address, size, is_free: false, vm_protect: RegionProtect::ReadWrite }
}

#[test]
fn diff_only_keeps_the_blocks_new_since_the_baseline() {
    let baseline = vec![block(0x10, 8), block(0x20, 16)];
    let current = vec![block(0x10, 8), block(0x30, 4), block(0x20, 32)];
    let kept = report_blocks(current.clone(), Some(&baseline), true);
    assert_eq!(kept, vec![block(0x30, 4), block(0x20, 32)]);
    assert_eq!(report_blocks(current.clone(), Some(&baseline), false), current);
    assert_eq!(report_blocks(current.clone(), None, true), current);
}

#[test]
fn report_path_defaults_by_format() {
    assert_eq!(report_path(&None, FormatType::Json), "heap_dump.json");
    assert_eq!(report_path(&None, FormatType::CSV), "heap_dump.csv");
    assert_eq!(report_path(&None, FormatType::Junit), "heap_dump.xml");
    assert_eq!(report_path(&Some("out/r.xml".to_string()), FormatType::Json), "out/r.xml");
}

#[test]
fn name_resolution_outcomes() {
    let name = "server".to_string();
    assert_eq!(resolve_name(&name, FuzzyMatch::Found(42)).unwrap(), 42);
    match resolve_name(&name, FuzzyMatch::NotFound) {
        Err(AppError::ProcessNotFound(n)) => assert_eq!(n, "server"),
        other => panic!("unexpected {:?}", other),
    }
    match resolve_name(&name, FuzzyMatch::Ambiguous(vec![1, 2])) {
        Err(AppError::InvalidArg(m)) => {
            assert_eq!(m, "'server' matches multiple processes \u{2014} use --pid for an exact match")
        }
        other => panic!("unexpected {:?}", other),
    }
}

#[test]
fn check_results_list_the_checks_that_ran() {
    let args = parse_ci_args(&argv(&["--max-memory", "1", "--leak-check", "--growth-rate", "5"])).unwrap();
    let results = check_results(&args, Verdict::LeakDetected { growth: 3 });
    let names: Vec<&str> = results.iter().map(|r| r.name.as_str()).collect();
    assert_eq!(names, vec!["max-memory", "leak-check", "growth-rate"]);
    assert!(results[0].passed && results[0].message.is_none());
    assert!(!results[1].passed);
    assert_eq!(results[1].message.as_deref(), Some("memory leak detected"));
    assert!(results[2].passed);

    let none = parse_ci_args(&argv(&["--pid", "3"])).unwrap();
    assert!(check_results(&none, Verdict::Finished).is_empty());
}
