use lib::{
    density_extremes, is_whitespace, length_spread, syncopated_steps, word_counts, LengthSpread,
    OutputStats, WordCounts,
};

/// The four timbre features of a summary, as the profile computes them.
fn features(stats: &OutputStats) -> [f64; 4] {
    if stats.sample_count == 0 {
        return [0.0; 4];
    }
    let rhythm = match stats.rhythm {
        LengthSpread::Flat => 0.0,
        LengthSpread::Varied { total, spread } => (spread as f64).sqrt() / total as f64,
        LengthSpread::TooLarge => panic!("lengths too large for exact terms"),
    };
    let densities: Vec<f64> = stats
        .counts
        .iter()
        .map(|c| if c.words == 0 { 0.0 } else { c.unique as f64 / c.words as f64 })
        .collect();
    let dynamic = match stats.density_span {
        Some((hi, lo)) => densities[hi] - densities[lo],
        None => 0.0,
    };
    let n = stats.sample_count;
    let sync = if n < 3 { 0.0 } else { stats.syncopated as f64 / (n - 2) as f64 };
    let density = densities.iter().sum::<f64>() / n as f64;
    [rhythm, dynamic, sync, density]
}

fn distance(a: [f64; 4], b: [f64; 4]) -> f64 {
    a.iter().zip(b.iter()).map(|(x, y)| (x - y) * (x - y)).sum::<f64>().sqrt()
}

fn density_of(text: &str) -> f64 {
    let c = word_counts(text);
    if c.words == 0 {
        0.0
    } else {
        c.unique as f64 / c.words as f64
    }
}

#[test]
fn test_same_style_low_distance() {
    let outputs_a = vec!["Hello world this is a test", "Hello world another test"];
    let outputs_b = vec!["Hello world this is also a test", "Hello world yet another test"];

    let profile_a = features(&OutputStats::from_outputs(&outputs_a));
    let profile_b = features(&OutputStats::from_outputs(&outputs_b));

    let d = distance(profile_a, profile_b);
    assert!(d < 0.3, "Similar styles should have low distance, got {}", d);
}

#[test]
fn test_different_style_high_distance() {
    let outputs_a = vec![
        "This is a very long and detailed output with many words and explanations",
        "short",
        "Another extremely verbose output that contains a lot of detailed information",
    ];
    let outputs_b = vec!["ok", "done", "yes"];

    let profile_a = features(&OutputStats::from_outputs(&outputs_a));
    let profile_b = features(&OutputStats::from_outputs(&outputs_b));

    let d = distance(profile_a, profile_b);
    assert!(d > 0.3, "Very different styles should have high distance, got {}", d);
}

#[test]
fn test_feature_extraction_values() {
    let outputs = vec!["hello world test", "hello world another test case"];
    let stats = OutputStats::from_outputs(&outputs);
    let f = features(&stats);

    assert!(f[0] >= 0.0, "Rhythm ratio should be non-negative");
    assert!(f[1] >= 0.0, "Dynamic range should be non-negative");
    assert!(f[2] >= 0.0, "Syncopation should be non-negative");
    assert!(f[3] > 0.0 && f[3] <= 1.0, "Density should be in (0, 1]");
    assert_eq!(stats.sample_count, 2);
}

#[test]
fn test_empty_profile() {
    let stats = OutputStats::from_outputs(&[]);
    let f = features(&stats);
    assert_eq!(f[0], 0.0);
    assert_eq!(f[3], 0.0);
    assert_eq!(stats.sample_count, 0);
    assert_eq!(stats.rhythm, LengthSpread::Flat);
    assert_eq!(stats.syncopated, 0);
    assert_eq!(stats.density_span, None);
}

#[test]
fn test_density_computation() {
    // All unique words -> density = 1.0
    assert!((density_of("a b c d") - 1.0).abs() < 0.01);

    // Repeated words -> density < 1.0
    assert!(density_of("hello hello hello") < 0.5);

    // Empty -> 0.0
    assert_eq!(density_of(""), 0.0);
}

#[test]
fn test_rhythm_ratio() {
    let ratio = |lengths: &[usize]| match length_spread(lengths) {
        LengthSpread::Flat => 0.0,
        LengthSpread::Varied { total, spread } => (spread as f64).sqrt() / total as f64,
        LengthSpread::TooLarge => panic!("too large"),
    };

    // Constant lengths -> low rhythm ratio
    let consistent = vec![100, 100, 100, 100];
    assert!(ratio(&consistent) < 0.01);

    // Variable lengths -> high rhythm ratio
    let varied = vec![10, 200, 5, 300];
    assert!(ratio(&varied) > 0.5);
}

#[test]
fn word_counts_exact() {
    assert_eq!(word_counts("a b c d"), WordCounts { words: 4, unique: 4 });
    assert_eq!(word_counts("hello hello hello"), WordCounts { words: 3, unique: 1 });
    assert_eq!(word_counts(""), WordCounts { words: 0, unique: 0 });
    assert_eq!(word_counts("   \t\n "), WordCounts { words: 0, unique: 0 });
    assert_eq!(word_counts("  to be  or\tnot to be\n"), WordCounts { words: 6, unique: 4 });
    // Case matters; punctuation stays part of the word.
    assert_eq!(word_counts("Hello hello hello."), WordCounts { words: 3, unique: 3 });
    // Unicode whitespace separates words too (NO-BREAK SPACE, IDEOGRAPHIC SPACE).
    assert_eq!(word_counts("a\u{a0}b\u{3000}a"), WordCounts { words: 3, unique: 2 });
    // Non-ASCII words.
    assert_eq!(word_counts("café café naïve"), WordCounts { words: 3, unique: 2 });
}

#[test]
fn whitespace_matches_std_on_every_char() {
    for v in 0u32..=0x10FFFF {
        if let Some(c) = char::from_u32(v) {
            assert_eq!(is_whitespace(c), c.is_whitespace(), "code point {:#x}", v);
        }
    }
}

#[test]
fn lengths_are_in_bytes() {
    let stats = OutputStats::from_outputs(&["héllo", "", "abc"]);
    assert_eq!(stats.lengths, vec![6, 0, 3]);
}

#[test]
fn length_spread_exact() {
    assert_eq!(length_spread(&[]), LengthSpread::Flat);
    assert_eq!(length_spread(&[7]), LengthSpread::Flat);
    assert_eq!(length_spread(&[0, 0, 0]), LengthSpread::Flat);
    // 2 * (26^2 + 24^2) - 50^2 = 4
    assert_eq!(length_spread(&[26, 24]), LengthSpread::Varied { total: 50, spread: 4 });
    assert_eq!(length_spread(&[100, 100, 100, 100]), LengthSpread::Varied { total: 400, spread: 0 });
    // 4 * (100 + 40000 + 25 + 90000) - 515^2 = 255275
    assert_eq!(length_spread(&[10, 200, 5, 300]), LengthSpread::Varied { total: 515, spread: 255275 });
    assert_eq!(length_spread(&[usize::MAX, usize::MAX]), LengthSpread::TooLarge);
}

#[test]
fn syncopation_exact() {
    assert_eq!(syncopated_steps(&[]), 0);
    assert_eq!(syncopated_steps(&[1, 100]), 0);
    // trend 2*20-10 = 30: 30 is on trend, 40 deviates by 10 > 9.
    assert_eq!(syncopated_steps(&[10, 20, 30]), 0);
    assert_eq!(syncopated_steps(&[10, 20, 40]), 1);
    // deviation exactly 30% of the trend (trend 10, length 13) is on trend.
    assert_eq!(syncopated_steps(&[10, 10, 13]), 0);
    assert_eq!(syncopated_steps(&[10, 10, 14]), 1);
    // negative trend: 2*0-10 = -10; length 0 deviates by 10 > 3.
    assert_eq!(syncopated_steps(&[10, 0, 0]), 1);
    assert_eq!(syncopated_steps(&[5, 5, 5, 5, 5]), 0);
    assert_eq!(syncopated_steps(&[1, 50, 2, 80, 3]), 3);
}

#[test]
fn density_extremes_exact() {
    let w = |words: usize, unique: usize| WordCounts { words, unique };
    assert_eq!(density_extremes(&[]), None);
    assert_eq!(density_extremes(&[w(3, 1)]), Some((0, 0)));
    // densities 1/3, 1, 0, 1/2 -> densest index 1, sparsest index 2
    assert_eq!(density_extremes(&[w(3, 1), w(2, 2), w(0, 0), w(4, 2)]), Some((1, 2)));
    // ties keep the first index
    assert_eq!(density_extremes(&[w(2, 1), w(4, 2), w(6, 3)]), Some((0, 0)));
    // 2/3 against 3/4: 3/4 is denser
    assert_eq!(density_extremes(&[w(3, 2), w(4, 3)]), Some((1, 0)));
}

#[test]
fn dynamic_range_is_never_negative() {
    let stats = OutputStats::from_outputs(&["a a a a", "b c", "", "d d e"]);
    let f = features(&stats);
    assert!(f[1] >= 0.0);
    assert_eq!(stats.density_span, Some((1, 2)));
    assert!((f[1] - 1.0).abs() < 1e-12);
}

#[test]
fn summary_ignores_output_order() {
    let a = ["one two two", "x", "alpha beta gamma delta", "", "repeat repeat"];
    let b = ["", "repeat repeat", "x", "one two two", "alpha beta gamma delta"];
    let sa = OutputStats::from_outputs(&a);
    let sb = OutputStats::from_outputs(&b);
    assert_eq!(sa.sample_count, sb.sample_count);
    assert_eq!(sa.rhythm, sb.rhythm);
    let fa = features(&sa);
    let fb = features(&sb);
    assert_eq!(fa[1], fb[1]);
    assert!((fa[3] - fb[3]).abs() < 1e-12);
}

#[test]
fn spread_is_zero_only_for_equal_lengths() {
    assert_eq!(length_spread(&[3, 3, 3]), LengthSpread::Varied { total: 9, spread: 0 });
    // 3 * (9 + 9 + 16) - 10^2 = 2
    assert_eq!(length_spread(&[3, 3, 4]), LengthSpread::Varied { total: 10, spread: 2 });
}
