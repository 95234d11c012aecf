use stream_audio::format::{
    mono_to_stereo, resample, resample_stereo, stereo_to_mono, try_resample, try_resample_stereo,
    FormatConverter, FormatError,
};

#[test]
fn test_stereo_to_mono() {
    let stereo = vec![100i16, 200, 300, 400];
    let mono = stereo_to_mono(&stereo);
    assert_eq!(mono, vec![150, 350]);
}

#[test]
fn test_stereo_to_mono_cancellation() {
    // Opposite values should cancel
    let stereo = vec![1000i16, -1000];
    let mono = stereo_to_mono(&stereo);
    assert_eq!(mono, vec![0]);
}

#[test]
fn convert_test_mono_to_stereo() {
    let mono = vec![100i16, 200];
    let stereo = mono_to_stereo(&mono);
    assert_eq!(stereo, vec![100, 100, 200, 200]);
}

#[test]
fn test_stereo_to_mono_odd_samples() {
    // Odd number of samples: the last half frame is dropped
    let odd_samples = vec![100i16, 200, 300];
    let result = stereo_to_mono(&odd_samples);
    assert_eq!(result, vec![150]);
}

#[test]
fn test_stereo_to_mono_single_sample() {
    let single = vec![100i16];
    let result = stereo_to_mono(&single);
    assert!(result.is_empty()); // Sample is lost!
}

#[test]
fn test_stereo_to_mono_empty() {
    // Empty input should return empty output
    let empty: Vec<i16> = vec![];
    let result = stereo_to_mono(&empty);
    assert!(result.is_empty());
}

#[test]
fn test_passthrough() {
    let converter = FormatConverter::new(48000, 2, 48000, 2);
    assert!(converter.is_passthrough());

    let samples = vec![100, 200, 300, 400];
    let result = converter.convert(&samples);
    assert_eq!(result, samples);
}

#[test]
fn test_stereo_to_mono_only() {
    let converter = FormatConverter::new(16000, 2, 16000, 1);
    assert!(!converter.is_passthrough());

    // Stereo pairs: (100, 200), (300, 400)
    let samples = vec![100, 200, 300, 400];
    let result = converter.convert(&samples);
    // Mono averages: 150, 350
    assert_eq!(result, vec![150, 350]);
}

#[test]
fn test_resample_only() {
    let converter = FormatConverter::new(48000, 1, 16000, 1);
    assert!(!converter.is_passthrough());

    // 48kHz mono -> 16kHz mono (3:1 ratio)
    // 6 samples at 48kHz = 2 samples at 16kHz
    let samples = vec![0, 100, 200, 300, 400, 500];
    let result = converter.convert(&samples);
    // Should be approximately 2 samples (may be 3 due to ceiling)
    assert!(result.len() <= 3);
}

#[test]
fn test_stereo_to_mono_and_resample() {
    let converter = FormatConverter::new(48000, 2, 16000, 1);
    assert!(!converter.is_passthrough());

    // 12 stereo samples at 48kHz = 6 frames
    // -> 6 mono samples after stereo_to_mono
    // -> 2 mono samples after 3:1 resample
    let samples: Vec<i16> = (0..12).map(|i| i * 100).collect();
    let result = converter.convert(&samples);

    // Should produce approximately 2 samples
    assert!(result.len() >= 2 && result.len() <= 3);
}

#[test]
fn mod_test_mono_to_stereo() {
    let converter = FormatConverter::new(16000, 1, 16000, 2);
    assert!(!converter.is_passthrough());

    let samples = vec![100, 200];
    let result = converter.convert(&samples);
    assert_eq!(result, vec![100, 100, 200, 200]);
}

#[test]
fn test_resample_same_rate() {
    let samples = vec![100i16, 200, 300];
    let resampled = resample(&samples, 16000, 16000);
    assert_eq!(resampled, samples);
}

#[test]
fn test_resample_empty() {
    let samples: Vec<i16> = vec![];
    let resampled = resample(&samples, 16000, 8000);
    assert!(resampled.is_empty());
}

#[test]
fn test_resample_downsample() {
    // 48kHz to 16kHz = 3:1 ratio
    let samples: Vec<i16> = (0..480).map(|i| (i * 10) as i16).collect();
    let resampled = resample(&samples, 48000, 16000);

    // Should be roughly 1/3 the length
    assert_eq!(resampled.len(), 160);
}

#[test]
fn test_resample_upsample() {
    // 16kHz to 48kHz = 1:3 ratio
    let samples: Vec<i16> = vec![0, 1000, 2000, 3000];
    let resampled = resample(&samples, 16000, 48000);

    // Should be roughly 3x the length
    assert_eq!(resampled.len(), 12);

    // First and roughly every 3rd sample should match the input
    assert_eq!(resampled[0], 0);
}

#[test]
fn test_resample_interpolation() {
    // Simple case: two samples, upsample by 2x
    let samples = vec![0i16, 1000];
    let resampled = resample(&samples, 1, 2);

    // Should have ~4 samples with interpolated values
    assert_eq!(resampled.len(), 4);
    assert_eq!(resampled[0], 0);
    // Middle samples should be interpolated
    assert!(resampled[1] > 0 && resampled[1] < 1000);
}

#[test]
fn test_resample_stereo() {
    let samples = vec![100i16, 200, 300, 400]; // L R L R
    let resampled = resample_stereo(&samples, 16000, 16000);
    assert_eq!(resampled, samples);
}

#[test]
fn test_resample_stereo_downsample() {
    // 4 stereo frames (8 samples) at 48kHz -> ~1.33 frames at 16kHz
    let samples = vec![0i16, 0, 100, 100, 200, 200, 300, 300];
    let resampled = resample_stereo(&samples, 48000, 16000);

    // Should have fewer samples, still even (stereo)
    assert!(resampled.len() < samples.len());
    assert_eq!(resampled.len() % 2, 0);
}

#[test]
fn test_resample_zero_to_rate() {
    // to_rate=0 means ratio=0, output_len=0
    let samples = vec![100i16, 200, 300];
    let result = resample(&samples, 16000, 0);
    assert!(result.is_empty());
}

#[test]
fn test_resample_zero_from_rate_returns_error() {
    // from_rate=0 should return an error
    let samples = vec![100i16];
    let result = try_resample(&samples, 0, 16000);
    assert_eq!(result, Err(FormatError::ZeroSampleRate));
}

#[test]
fn test_resample_extreme_upsample() {
    // Extreme upsample: 1Hz to 1000Hz (1000x)
    let samples = vec![0i16, 1000];
    let result = resample(&samples, 1, 1000);

    // Should produce ~2000 samples (2 samples * 1000)
    assert_eq!(result.len(), 2000);
    // First sample should be 0
    assert_eq!(result[0], 0);
    // Last sample should be 1000 (or close)
    assert_eq!(*result.last().unwrap(), 1000);
}

#[test]
fn test_resample_single_sample() {
    // Single sample resampled to higher rate
    let samples = vec![500i16];
    let result = resample(&samples, 1, 10);

    // Should produce ~10 copies of the same sample
    assert_eq!(result.len(), 10);
    // All samples should be 500 (no interpolation possible)
    assert!(result.iter().all(|&s| s == 500));
}

#[test]
fn test_resample_stereo_odd_samples_returns_error() {
    // Odd number of stereo samples should return an error
    let odd_stereo = vec![100i16, 200, 300]; // 1.5 frames
    let result = try_resample_stereo(&odd_stereo, 16000, 32000);
    assert_eq!(result, Err(FormatError::OddSampleCount { count: 3 }));
}

#[test]
fn test_resample_stereo_single_sample_returns_error() {
    // Single sample should return an error
    let single = vec![100i16];
    let result = try_resample_stereo(&single, 16000, 32000);
    assert_eq!(result, Err(FormatError::OddSampleCount { count: 1 }));
}

#[test]
fn test_resample_stereo_same_rate_odd_returns_error() {
    // Even same-rate passthrough should check for odd samples now
    let odd_stereo = vec![100i16, 200, 300];
    let result = try_resample_stereo(&odd_stereo, 16000, 16000);
    assert_eq!(result, Err(FormatError::OddSampleCount { count: 3 }));
}

#[test]
fn test_resample_stereo_same_rate_passthrough() {
    // Same rate with valid even samples should passthrough
    let stereo = vec![100i16, 200, 300, 400];
    let result = resample_stereo(&stereo, 16000, 16000);
    assert_eq!(result, vec![100, 200, 300, 400]);
}

#[test]
fn test_resample_precision_boundary() {
    // Test interpolation at exact sample boundaries
    let samples = vec![0i16, 100, 200, 300];
    // 2x upsample: should land on input samples at even indices
    let result = resample(&samples, 1, 2);

    // Input samples should appear at even positions
    assert_eq!(result[0], 0);
    assert_eq!(result[2], 100);
    assert_eq!(result[4], 200);
    assert_eq!(result[6], 300);
}

/// Linear interpolation with the hardware's floating point numbers.
fn interpolated(samples: &[i16], from: u32, to: u32) -> Vec<i16> {
    let ratio = f64::from(to) / f64::from(from);
    let len = (samples.len() as f64 * ratio).ceil() as usize;
    (0..len)
        .map(|i| {
            let position = i as f64 / ratio;
            let index = position.floor() as usize;
            let fraction = position - index as f64;
            if index + 1 < samples.len() {
                let a = f64::from(samples[index]);
                let b = f64::from(samples[index + 1]);
                (a + (b - a) * fraction) as i16
            } else if index < samples.len() {
                samples[index]
            } else {
                samples[samples.len() - 1]
            }
        })
        .collect()
}

#[test]
fn resampling_agrees_with_floating_point_hardware() {
    let samples: Vec<i16> =
        (0..2000i32).map(|i| ((i * 7919 + 13) % 65536 - 32768) as i16).collect();
    for &(from, to) in &[
        (44100u32, 16000u32),
        (48000, 44100),
        (16000, 44100),
        (22050, 48000),
        (8000, 11025),
        (3, 7),
        (96000, 8000),
    ] {
        assert_eq!(try_resample(&samples, from, to).unwrap(), interpolated(&samples, from, to));
    }
}

#[test]
fn doubling_then_averaging_gives_the_samples_back() {
    let mono = vec![i16::MIN, -1, 0, 1, 12345, i16::MAX];
    assert_eq!(stereo_to_mono(&mono_to_stereo(&mono)), mono);
}

#[test]
fn averages_round_toward_zero() {
    assert_eq!(stereo_to_mono(&[-1, -2, 1, 2, i16::MIN, i16::MIN]), vec![-1, 1, i16::MIN]);
}

#[test]
fn stereo_channels_are_resampled_apart() {
    let out = try_resample_stereo(&[0, 1000, 100, 2000], 1, 2).unwrap();
    assert_eq!(out, vec![0, 1000, 50, 1500, 100, 2000, 100, 2000]);
}

#[test]
fn conversions_that_cannot_be_done_are_recognised() {
    assert!(!FormatConverter::new(0, 1, 16000, 1).can_convert(&[1, 2]));
    assert!(!FormatConverter::new(48000, 2, 16000, 2).can_convert(&[1, 2, 3]));
    assert!(FormatConverter::new(48000, 2, 16000, 2).can_convert(&[1, 2, 3, 4]));
    assert!(FormatConverter::new(0, 1, 0, 1).can_convert(&[1, 2, 3]));
}

#[test]
fn mono_is_doubled_before_it_is_resampled() {
    let out = FormatConverter::new(1, 1, 2, 2).convert(&[0, 100]);
    assert_eq!(out, vec![0, 0, 50, 50, 100, 100, 100, 100]);
}

#[test]
fn a_multiple_of_the_rate_keeps_every_sample() {
    let samples: Vec<i16> = (0..500i16).map(|i| i * 61 - 15000).collect();
    for factor in [2u32, 3, 5, 7] {
        let result = resample(&samples, 9600, 9600 * factor);
        assert_eq!(result.len(), samples.len() * factor as usize);
        let kept: Vec<i16> = result.iter().copied().step_by(factor as usize).collect();
        assert_eq!(kept, samples);
    }
}

#[test]
fn a_third_of_the_rate_keeps_every_third_sample() {
    let samples: Vec<i16> = (0..1000i16).map(|i| i * 31 - 15000).collect();
    for len in [1, 2, 3, 998, 999, 1000] {
        let kept: Vec<i16> = samples[..len].iter().copied().step_by(3).collect();
        assert_eq!(resample(&samples[..len], 48000, 16000), kept);
    }
}
