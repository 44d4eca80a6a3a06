use lib::{length_spread, syncopated_steps, LengthSpread};

/// The syncopation count computed in floating point, step by step.
fn float_syncopated(lengths: &[usize]) -> usize {
    let mut deviations = 0usize;
    for i in 2..lengths.len() {
        let trend =
            (lengths[i - 1] as f64 + (lengths[i - 1] as f64 - lengths[i - 2] as f64)) as isize;
        let actual = lengths[i] as isize;
        if (actual - trend).unsigned_abs() > (trend.unsigned_abs() as f64 * 0.3) as usize {
            deviations += 1;
        }
    }
    deviations
}

/// The coefficient of variation computed in floating point.
fn float_rhythm(lengths: &[usize]) -> f64 {
    if lengths.len() < 2 {
        return 0.0;
    }
    let mean = lengths.iter().sum::<usize>() as f64 / lengths.len() as f64;
    if mean == 0.0 {
        return 0.0;
    }
    let variance =
        lengths.iter().map(|&l| (l as f64 - mean).powi(2)).sum::<f64>() / lengths.len() as f64;
    variance.sqrt() / mean
}

/// A small deterministic sequence of pseudo-random lengths.
fn lengths(seed: u64, n: usize, max: u64) -> Vec<usize> {
    let mut x = seed.wrapping_mul(6364136223846793005).wrapping_add(1442695040888963407);
    (0..n)
        .map(|_| {
            x = x.wrapping_mul(6364136223846793005).wrapping_add(1442695040888963407);
            ((x >> 33) % (max + 1)) as usize
        })
        .collect()
}

#[test]
fn thirty_percent_tolerance_is_exact_in_integers() {
    for t in 0usize..2_000_000 {
        assert_eq!((t as f64 * 0.3) as usize, 3 * t / 10, "t = {}", t);
    }
}

#[test]
fn syncopation_agrees_with_floating_point() {
    for seed in 0..2000u64 {
        let n = (seed % 12) as usize;
        let max = [3u64, 20, 1000, 100_000][(seed % 4) as usize];
        let ls = lengths(seed, n, max);
        assert_eq!(syncopated_steps(&ls), float_syncopated(&ls), "{:?}", ls);
    }
}

#[test]
fn rhythm_terms_agree_with_floating_point() {
    for seed in 0..2000u64 {
        let n = (seed % 12) as usize;
        let max = [3u64, 20, 1000, 100_000][(seed % 4) as usize];
        let ls = lengths(seed, n, max);
        let exact = match length_spread(&ls) {
            LengthSpread::Flat => 0.0,
            LengthSpread::Varied { total, spread } => (spread as f64).sqrt() / total as f64,
            LengthSpread::TooLarge => panic!("too large"),
        };
        let float = float_rhythm(&ls);
        assert!((exact - float).abs() <= 1e-9 * (1.0 + float.abs()), "{:?}: {} vs {}", ls, exact, float);
    }
}
