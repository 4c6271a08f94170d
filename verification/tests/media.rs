use pair::media::{
    capture_size, cmtime_micros, encoder_size, even, interleaved_audio, media_micros,
    replaces_params, usable_params, AudioError, ChannelBuffer, MAX_SIDE, TIMESCALE,
};

fn buffer(channels: u32, samples: &[u32]) -> ChannelBuffer {
    ChannelBuffer {
        channels,
        samples: Some(samples.to_vec()),
    }
}

fn missing(channels: u32) -> ChannelBuffer {
    ChannelBuffer {
        channels,
        samples: None,
    }
}

#[test]
fn media_times_become_microseconds() {
    assert_eq!(media_micros(3, 2), 1_500_000);
    assert_eq!(media_micros(1, 3), 333_333);
    assert_eq!(media_micros(-5, 600), 0);
    assert_eq!(media_micros(5, 0), 0);
    assert_eq!(media_micros(5, -1), 0);
    assert_eq!(media_micros(i64::MAX, TIMESCALE), i64::MAX as u64);
    // Longer than 64 bits of microseconds is cut.
    assert_eq!(
        media_micros(i64::MAX, 1),
        (i64::MAX as i128 * 1_000_000) as u64
    );
}

#[test]
fn an_invalid_media_time_counts_as_zero() {
    assert_eq!(cmtime_micros(false, 3, 2), 0);
    assert_eq!(cmtime_micros(true, 3, 2), 1_500_000);
}

#[test]
fn encoders_get_even_dimensions() {
    assert_eq!(even(7), 6);
    assert_eq!(even(8), 8);
    assert_eq!(even(-3), -4);
    assert_eq!(encoder_size(1921, 1081), Some((1920, 1080)));
    assert_eq!(encoder_size(2, 2), Some((2, 2)));
    assert_eq!(encoder_size(1, 1080), None);
    assert_eq!(encoder_size(1920, 0), None);
    assert_eq!(encoder_size(-4, 4), None);
}

#[test]
fn separate_channels_are_woven_together() {
    assert_eq!(
        interleaved_audio(&[buffer(1, &[1, 2, 3]), buffer(1, &[4, 5])], 9),
        Ok(vec![1, 4, 2, 5])
    );
    assert_eq!(
        interleaved_audio(&[buffer(1, &[1, 2, 3]), buffer(1, &[4, 5, 6])], 2),
        Ok(vec![1, 4, 2, 5])
    );
}

#[test]
fn a_lone_channel_is_heard_on_both_sides() {
    assert_eq!(
        interleaved_audio(&[buffer(1, &[1, 2])], 2),
        Ok(vec![1, 1, 2, 2])
    );
    assert_eq!(
        interleaved_audio(&[buffer(1, &[1, 2]), missing(1)], 2),
        Ok(vec![1, 1, 2, 2])
    );
}

#[test]
fn an_interleaved_buffer_gives_its_first_two_channels() {
    assert_eq!(
        interleaved_audio(&[buffer(3, &[1, 2, 3, 4, 5, 6, 7])], 9),
        Ok(vec![1, 2, 4, 5])
    );
    assert_eq!(
        interleaved_audio(&[buffer(2, &[1, 2, 3, 4])], 1),
        Ok(vec![1, 2])
    );
}

#[test]
fn captured_audio_without_samples_is_reported() {
    assert_eq!(
        interleaved_audio(&[buffer(2, &[1, 2])], 0),
        Err(AudioError::NoFrames)
    );
    assert_eq!(interleaved_audio(&[], 4), Err(AudioError::NoBuffers));
    assert_eq!(
        interleaved_audio(&[missing(2)], 4),
        Err(AudioError::InterleavedMissing)
    );
    assert_eq!(
        interleaved_audio(&[missing(1), buffer(1, &[1])], 4),
        Err(AudioError::FirstMissing)
    );
    assert_eq!(
        interleaved_audio(&[buffer(2, &[1])], 4),
        Err(AudioError::NoSamples)
    );
    assert_eq!(
        interleaved_audio(&[buffer(1, &[1]), buffer(1, &[])], 4),
        Err(AudioError::NoSamples)
    );
}

#[test]
fn a_wide_display_is_scaled_down_in_proportion() {
    assert_eq!(capture_size(3840, 2160, 2560), (2560, 1440));
    assert_eq!(capture_size(1920, 1081, 2560), (1920, 1080));
    assert_eq!(capture_size(0, 0, 0), (0, 0));
    assert_eq!(capture_size(MAX_SIDE, MAX_SIDE, 0), (0, 0));
    for width in [1, 7, 1366, 3024, 5120, 6016, MAX_SIDE] {
        for height in [0, 1, 768, 1964, 2880, 3384, MAX_SIDE] {
            for max_width in [1, 2, 640, 2559, 2560] {
                if width > max_width {
                    let scaled =
                        (height as f64 * max_width as f64 / width as f64).round() as i32;
                    assert_eq!(
                        capture_size(width, height, max_width),
                        (max_width & !1, scaled & !1)
                    );
                }
            }
        }
    }
}

#[test]
fn parameter_sets_must_hold_something() {
    assert!(usable_params(&[vec![1], vec![2, 3]]));
    assert!(!usable_params(&[]));
    assert!(!usable_params(&[vec![1], vec![]]));
}

#[test]
fn a_decoder_starts_over_only_for_new_parameter_sets() {
    let current = [vec![1], vec![2, 3]];
    assert!(!replaces_params(&current, &current));
    assert!(!replaces_params(&[], &current));
    assert!(replaces_params(&[vec![1]], &current));
    assert!(replaces_params(&[vec![1], vec![2, 4]], &current));
    assert!(replaces_params(&[vec![1], vec![2]], &current));
    assert!(replaces_params(&current, &[]));
}
