use nixbench::EvalResult;

#[test]
fn summarize_odd_runs() {
    let r = EvalResult::summarize("nix-2.35".to_string(), vec![3_000, 1_000, 2_000]);
    assert_eq!(r.version, "nix-2.35");
    assert_eq!(r.avg_time, 2_000);
    assert_eq!(r.median_time, 2_000);
    assert_eq!(r.run_times, vec![3_000, 1_000, 2_000]);
}

#[test]
fn summarize_even_runs_rounds_down() {
    let r = EvalResult::summarize("lix-2.95".to_string(), vec![4, 1, 3, 2]);
    assert_eq!(r.avg_time, 2);
    assert_eq!(r.median_time, 2);
    let s = EvalResult::summarize("lix-2.95".to_string(), vec![1, 2]);
    assert_eq!(s.avg_time, 1);
    assert_eq!(s.median_time, 1);
}

#[test]
fn summarize_no_runs() {
    let r = EvalResult::summarize("nix-2.18".to_string(), Vec::new());
    assert_eq!(r.avg_time, 0);
    assert_eq!(r.median_time, 0);
}

#[test]
fn average_and_median_within_bounds() {
    let times = vec![43_210_000_000, 45_021_000_000, 132_120_000_000, 44_000_000_000, 51_370_000_000];
    let r = EvalResult::summarize("nix-2.34".to_string(), times.clone());
    let lo = *times.iter().min().unwrap();
    let hi = *times.iter().max().unwrap();
    assert!(lo <= r.avg_time && r.avg_time <= hi);
    assert!(lo <= r.median_time && r.median_time <= hi);
    assert!(times.contains(&r.median_time));
    assert_eq!(r.median_time, 45_021_000_000);
    assert_eq!(r.avg_time, 63_144_200_000);
}

#[test]
fn summarize_large_times() {
    let big = u64::MAX as u128 * 1_000_000_000 / 2;
    let r = EvalResult::summarize("nix-2.30".to_string(), vec![big, big]);
    assert_eq!(r.median_time, big);
    assert_eq!(r.avg_time, big);
}
