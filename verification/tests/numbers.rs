use stream_audio::binary64::Binary64;
use stream_audio::text::{contains_text, decimal, decimal_list, join4, signed_decimal};
use stream_audio::time::Duration;

fn seconds(duration: Duration) -> u128 {
    Duration::from_seconds(duration.as_seconds()).as_nanos()
}

#[test]
fn seconds_go_through_binary64() {
    for &nanos in &[0u128, 1, 999_999_999, 1_000_000_001, 123_456_789_012_345, 5_000_000_000] {
        let hardware = std::time::Duration::from_nanos(nanos as u64).as_secs_f64();
        let expected = std::time::Duration::from_secs_f64(hardware).as_nanos();
        assert_eq!(seconds(Duration::from_nanos(nanos)), expected);
    }
}

#[test]
fn durations_are_counted_in_nanoseconds() {
    assert_eq!(Duration::zero().as_nanos(), 0);
    assert_eq!(Duration::from_millis(1500).as_nanos(), 1_500_000_000);
    assert_eq!(Duration::from_secs(2).as_millis(), 2000);
    assert_eq!(Duration::from_nanos(7).half().as_nanos(), 3);
    assert!(Duration::from_millis(1) < Duration::from_secs(1));
}

#[test]
fn quotients_and_products_are_rounded_to_even() {
    for &(a, b) in &[(1u64, 3u64), (48000, 44100), (16000, 48000), (7, 10), (9_007_199_254_740_993, 1)] {
        let soft = Binary64::from_u64(a).divided_by(Binary64::from_u64(b));
        let hard = a as f64 / b as f64;
        for &n in &[1u64, 3, 44100, 1_000_003] {
            let product = soft.times(Binary64::from_u64(n));
            assert_eq!(product.to_floor(), (hard * n as f64).floor() as u128);
            assert_eq!(product.to_ceil(), (hard * n as f64).ceil() as u128);
        }
    }
}

#[test]
fn sums_are_rounded_to_even() {
    let big = Binary64::from_u64(1 << 53);
    assert_eq!(big.plus(Binary64::from_u64(1)).to_floor(), 1 << 53);
    assert_eq!(big.plus(Binary64::from_u64(3)).to_floor(), (1 << 53) + 4);
}

#[test]
fn numbers_are_written_in_decimal() {
    assert_eq!(decimal(0), "0");
    assert_eq!(decimal(u64::MAX), "18446744073709551615");
    assert_eq!(signed_decimal(-40), "-40");
    assert_eq!(decimal_list(&vec![1, 20, 300]), "[1, 20, 300]");
    assert_eq!(join4("a", "", "b", "c"), "abc");
}

#[test]
fn texts_are_searched() {
    assert!(contains_text("abcabd", "abd"));
    assert!(contains_text("abc", ""));
    assert!(contains_text("", ""));
    assert!(!contains_text("ab", "abc"));
    assert!(!contains_text("aXbXc", "abc"));
    assert!(contains_text("größe", "öß"));
}
