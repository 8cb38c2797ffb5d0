use pii::listing::usage_label;
use pii::numfmt::{compact_num, decimal_string, fmt_dur, float_quotient_scaled, tenths_string};
use pii::text::truncate;

fn oracle_compact(n: u64) -> String {
    if n >= 1_000_000 {
        format!("{:.1}M", n as f64 / 1_000_000.0)
    } else if n >= 1_000 {
        format!("{:.1}K", n as f64 / 1_000.0)
    } else {
        n.to_string()
    }
}

#[test]
fn compact_num_matches_float_formatting() {
    let samples: Vec<u64> = vec![
        0, 1, 9, 10, 999, 1_000, 1_049, 1_050, 1_051, 1_250, 1_350, 1_450, 2_500, 9_950, 9_999,
        12_345, 99_950, 999_949, 999_950, 999_999, 1_000_000, 1_049_999, 1_050_000, 1_150_000,
        1_250_000, 2_500_000, 12_345_678, 999_999_999, 4_294_967_295, 9_007_199_254_740_993,
        123_456_789_012_345_678, u64::MAX - 1, u64::MAX,
    ];
    for n in samples {
        assert_eq!(compact_num(n), oracle_compact(n), "n = {}", n);
    }
    let mut x: u64 = 1;
    for _ in 0..2000 {
        x = x.wrapping_mul(6364136223846793005).wrapping_add(1442695040888963407);
        let n = x >> (x % 61);
        assert_eq!(compact_num(n), oracle_compact(n), "n = {}", n);
    }
}

#[test]
fn compact_num_examples() {
    assert_eq!(compact_num(999), "999");
    assert_eq!(compact_num(1_500), "1.5K");
    assert_eq!(compact_num(2_345_678), "2.3M");
    assert_eq!(compact_num(1_050_000), "1.1M");
}

#[test]
fn tenths_and_decimals() {
    assert_eq!(decimal_string(0), "0");
    assert_eq!(decimal_string(340_282_366_920_938_463_463_374_607_431_768_211_455), "340282366920938463463374607431768211455");
    assert_eq!(tenths_string(0), "0.0");
    assert_eq!(tenths_string(125), "12.5");
    assert_eq!(float_quotient_scaled(1_500, 1_000, 1), 2);
    assert_eq!(float_quotient_scaled(2_500, 1_000, 1), 2);
    assert_eq!(float_quotient_scaled(1_050, 1_000, 10), 11);
}

fn oracle_dur(ms: u128) -> String {
    if ms < 1000 {
        format!("{}ms", ms)
    } else if ms < 60_000 {
        format!("{:.1}s", ms as f64 / 1000.0)
    } else {
        format!("{}m{:02}s", ms / 60_000, (ms / 1000) % 60)
    }
}

#[test]
fn durations_match_their_formatting() {
    for ms in [0u128, 1, 999, 1000, 1049, 1050, 1051, 1250, 59_949, 59_950, 59_999, 60_000, 61_000, 3_599_999, 3_600_000, 123_456_789] {
        assert_eq!(fmt_dur(ms), oracle_dur(ms), "ms = {}", ms);
    }
    for ms in (0u128..70_000).step_by(7) {
        assert_eq!(fmt_dur(ms), oracle_dur(ms), "ms = {}", ms);
    }
    assert_eq!(fmt_dur(61_000), "1m01s");
    assert_eq!(fmt_dur(1_250), "1.2s");
}

fn oracle_usage(tokens: u32) -> String {
    let tokens_k = (tokens as f64) / 1000.0;
    if tokens >= 1_000_000 {
        format!("{:>4.1}M", tokens as f64 / 1_000_000.0)
    } else if tokens >= 1_000 {
        format!("{:>4.0}K", tokens_k)
    } else {
        format!("{:>5}", tokens)
    }
}

#[test]
fn usage_labels_match_their_formatting() {
    for t in [0u32, 7, 999, 1_000, 1_499, 1_500, 2_500, 3_500, 999_499, 999_500, 999_999, 1_000_000, 1_050_000, 12_345_678, u32::MAX] {
        assert_eq!(usage_label(t), oracle_usage(t), "tokens = {}", t);
    }
    for t in (0u32..3_000_000).step_by(997) {
        assert_eq!(usage_label(t), oracle_usage(t), "tokens = {}", t);
    }
    assert_eq!(usage_label(2_500), "   2K");
    assert_eq!(usage_label(42), "   42");
}

#[test]
fn truncate_cuts_with_an_ellipsis() {
    assert_eq!(truncate("hello", 3), "he…");
    assert_eq!(truncate("hi", 3), "hi");
    assert_eq!(truncate("abc", 3), "abc");
    assert_eq!(truncate("héllo wörld", 5), "héll…");
    assert_eq!(truncate("abcdef", 1), "…");
    assert_eq!(truncate("", 0), "");
}

#[test]
fn truncated_text_fits_and_keeps_its_start() {
    for (s, max) in [("a long project name", 9usize), ("short", 9), ("exactly9!", 9), ("ünïcödé text", 4)] {
        let t = truncate(s, max);
        assert!(t.chars().count() <= max);
        if s.chars().count() <= max {
            assert_eq!(t, s);
        } else {
            let head: String = s.chars().take(max - 1).collect();
            assert_eq!(t, format!("{}…", head));
        }
    }
}
