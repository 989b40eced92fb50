use benchdiff::stats::benjamini_hochberg;

/// The step-up thresholds `(rank + 1) * q / n`, as the application computes them.
fn thresholds(n: usize, q: f64) -> Vec<u64> {
    (0..n).map(|r| ((r + 1) as f64 * q / n as f64).to_bits()).collect()
}

fn bh(ps: &[f64], q: f64) -> Vec<bool> {
    let p: Vec<u64> = ps.iter().map(|x| x.to_bits()).collect();
    benjamini_hochberg(&p, &thresholds(ps.len(), q))
}

#[test]
fn bh_empty() {
    assert_eq!(bh(&[], 0.05).len(), 0);
}

#[test]
fn bh_all_pass() {
    let r = bh(&[0.001, 0.002, 0.003], 0.05);
    assert_eq!(r, vec![true, true, true]);
}

#[test]
fn bh_all_fail() {
    let r = bh(&[0.9, 0.8, 0.7], 0.05);
    assert_eq!(r, vec![false, false, false]);
}

#[test]
fn bh_mixed() {
    let r = bh(&[0.01, 0.04, 0.03, 0.9], 0.05);
    assert_eq!(r[0], true);
}

#[test]
fn bh_mixed_exact_pattern() {
    // Sorted: 0.01, 0.03, 0.04, 0.9 against 0.0125, 0.025, 0.0375, 0.05:
    // only rank 0 passes, so only the first hypothesis is rejected.
    assert_eq!(bh(&[0.01, 0.04, 0.03, 0.9], 0.05), vec![true, false, false, false]);
}

#[test]
fn bh_step_up_rejects_everything_up_to_the_largest_passing_rank() {
    // Sorted: 0.001, 0.02, 0.03, 0.035 against 0.0125, 0.025, 0.0375, 0.05:
    // every rank passes.
    assert_eq!(bh(&[0.035, 0.001, 0.03, 0.02], 0.05), vec![true, true, true, true]);
    // Sorted: 0.001, 0.03, 0.044, 0.045: rank 1 fails its threshold (0.025)
    // but rank 3 passes (0.045 <= 0.05), so ranks 0 to 3 are all rejected.
    assert_eq!(bh(&[0.045, 0.001, 0.03, 0.044], 0.05), vec![true, true, true, true]);
    // Sorted: 0.001, 0.03, 0.06 against 0.0167, 0.0333, 0.05: ranks 0 and 1
    // pass, rank 2 does not.
    assert_eq!(bh(&[0.06, 0.03, 0.001], 0.05), vec![false, true, true]);
}
