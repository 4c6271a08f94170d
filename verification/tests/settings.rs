use pair::packet::SampleRate;
use pair::settings::{bits_per_second, floor_mbps, resolve_sample_rate, UnsupportedRate};

#[test]
fn an_explicit_rate_wins_over_the_device() {
    assert_eq!(
        resolve_sample_rate(Some(44_100), Some(SampleRate::Hz96000)),
        Ok(SampleRate::Hz44100)
    );
    assert_eq!(
        resolve_sample_rate(None, Some(SampleRate::Hz96000)),
        Ok(SampleRate::Hz96000)
    );
    assert_eq!(resolve_sample_rate(None, None), Ok(SampleRate::Hz48000));
}

#[test]
fn a_rate_the_link_cannot_carry_is_refused() {
    assert_eq!(
        resolve_sample_rate(Some(37_000), Some(SampleRate::Hz48000)),
        Err(UnsupportedRate { hz: 37_000 })
    );
}

#[test]
fn bitrates_are_given_in_megabits() {
    assert_eq!(bits_per_second(40), 40_000_000);
    assert_eq!(bits_per_second(0), 0);
    assert_eq!(bits_per_second(2147), 2_147_000_000);
}

#[test]
fn the_floor_is_never_above_the_bitrate() {
    assert_eq!(floor_mbps(5, 40), 5);
    assert_eq!(floor_mbps(50, 40), 40);
}
