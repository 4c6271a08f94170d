use pair::packet::{SampleRate, AUDIO_CHANNELS};
use pair::wav::{WavWriter, BITS_PER_SAMPLE, FORMAT_FLOAT, WAV_HEADER_LEN};

fn read_u32(bytes: &[u8], at: usize) -> u32 {
    u32::from_le_bytes(bytes[at..at + 4].try_into().expect("four bytes"))
}

fn read_u16(bytes: &[u8], at: usize) -> u16 {
    u16::from_le_bytes(bytes[at..at + 2].try_into().expect("two bytes"))
}

/// A finished recording of `samples`, as it stands on disk.
fn recorded(rate: SampleRate, chunks: &[&[f32]]) -> Vec<u8> {
    let mut bytes = Vec::new();
    let mut wav = WavWriter::create(rate, &mut bytes);
    for chunk in chunks {
        let bits: Vec<u32> = chunk.iter().map(|s| s.to_bits()).collect();
        wav.write(&bits, &mut bytes);
    }
    for patch in wav.finish() {
        let at = patch.at as usize;
        bytes[at..at + patch.bytes.len()].copy_from_slice(&patch.bytes);
    }
    bytes
}

#[test]
fn writes_a_header_players_can_actually_read() {
    let samples: Vec<f32> = (0..480).map(|i| (i as f32 / 480.0) - 0.5).collect();
    let bytes = recorded(SampleRate::Hz48000, &[&samples]);
    assert_eq!(&bytes[0..4], b"RIFF");
    assert_eq!(&bytes[8..12], b"WAVE");
    assert_eq!(&bytes[12..16], b"fmt ");
    assert_eq!(&bytes[36..40], b"data");

    assert_eq!(read_u16(&bytes, 20), FORMAT_FLOAT, "IEEE float");
    assert_eq!(read_u16(&bytes, 22), AUDIO_CHANNELS as u16);
    assert_eq!(read_u32(&bytes, 24), 48_000);
    assert_eq!(read_u16(&bytes, 34), BITS_PER_SAMPLE);

    // The sizes are backfilled by `finish`; getting these wrong is the classic
    // way to produce a file that looks fine but will not open.
    let data_bytes = (samples.len() * 4) as u32;
    assert_eq!(read_u32(&bytes, 40), data_bytes, "data chunk size");
    assert_eq!(read_u32(&bytes, 4), 36 + data_bytes, "RIFF size");
    assert_eq!(bytes.len(), 44 + data_bytes as usize);
}

#[test]
fn samples_survive_the_round_trip_unchanged() {
    // Values chosen to catch byte-order and truncation mistakes.
    let samples = vec![0.0f32, 1.0, -1.0, 0.5, -0.25, f32::MIN_POSITIVE];
    let bytes = recorded(SampleRate::Hz48000, &[&samples]);
    let frames = bytes[44..].chunks_exact(4);
    assert!(
        frames.remainder().is_empty(),
        "the payload must be a whole number of samples"
    );
    let decoded: Vec<f32> = frames
        .map(|b| f32::from_le_bytes(b.try_into().expect("four bytes")))
        .collect();
    assert_eq!(decoded, samples, "audio must be stored losslessly");
}

#[test]
fn the_header_records_the_streams_actual_rate() {
    for rate in [
        SampleRate::Hz44100,
        SampleRate::Hz48000,
        SampleRate::Hz96000,
    ] {
        let bytes = recorded(rate, &[&[0.0; 8]]);
        assert_eq!(read_u32(&bytes, 24), rate.hz(), "sample rate field");
        let bytes_per_frame = AUDIO_CHANNELS as u32 * u32::from(BITS_PER_SAMPLE / 8);
        assert_eq!(
            read_u32(&bytes, 28),
            rate.hz() * bytes_per_frame,
            "byte rate must agree, or players resample"
        );
    }
}

#[test]
fn an_empty_recording_is_still_a_valid_file() {
    let bytes = recorded(SampleRate::Hz48000, &[]);
    assert_eq!(bytes.len(), 44, "header only");
    assert_eq!(read_u32(&bytes, 40), 0);
    assert_eq!(read_u32(&bytes, 4), 36);
}

#[test]
fn recording_in_pieces_makes_the_same_file() {
    let samples: Vec<f32> = (0..64).map(|i| i as f32).collect();
    assert_eq!(
        recorded(SampleRate::Hz44100, &[&samples[..10], &samples[10..]]),
        recorded(SampleRate::Hz44100, &[&samples])
    );
    let bytes = recorded(SampleRate::Hz44100, &[&samples]);
    // Size of the format chunk, and bytes per frame.
    assert_eq!(read_u32(&bytes, 16), 16);
    assert_eq!(read_u16(&bytes, 32), 8);
    assert_eq!(WAV_HEADER_LEN, 44);
}
