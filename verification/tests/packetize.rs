use pair::jitter::{AudioJitter, FADE_SAMPLES};
use pair::packet::{
    flags, Kind, SampleRate, AUDIO_BLOCK_BYTES, AUDIO_CHANNELS, AUDIO_FRAMES_PER_PACKET,
    MAX_PAYLOAD,
};
use pair::packetize::{AudioPacketizer, SAMPLES_PER_PACKET};

/// A ramp makes any reordering, gap, or duplication visible in the output.
fn ramp(count: usize, start: usize) -> Vec<f32> {
    (start..start + count).map(|i| i as f32).collect()
}

fn bits(samples: &[f32]) -> Vec<u32> {
    samples.iter().map(|s| s.to_bits()).collect()
}

#[test]
fn repacketizes_irregular_input_into_fixed_blocks() {
    let mut p = AudioPacketizer::new(true, SampleRate::Hz48000);
    let mut packets = Vec::new();
    // Deliberately awkward chunk sizes, as ScreenCaptureKit would deliver.
    let mut produced = 0;
    for chunk in [100usize, 1, 999, 4096, 37] {
        let samples = ramp(chunk * AUDIO_CHANNELS, produced);
        produced += chunk * AUDIO_CHANNELS;
        p.push(&bits(&samples), 0, &mut packets);
    }
    assert!(!packets.is_empty());
    for (i, (h, payload)) in packets.iter().enumerate() {
        assert_eq!(h.seq, i as u64, "sequence numbers are dense");
        let expected = if i == 0 {
            AUDIO_BLOCK_BYTES
        } else {
            AUDIO_BLOCK_BYTES * 2
        };
        assert_eq!(payload.len(), expected, "packet {i} carries block + FEC");
    }
}

/// The whole audio path: capture chunks in, samples out, with loss applied.
fn round_trip(drop: impl Fn(u64) -> bool) -> Vec<f32> {
    let mut p = AudioPacketizer::new(true, SampleRate::Hz48000);
    let mut j = AudioJitter::new(0);
    let total_frames = AUDIO_FRAMES_PER_PACKET * 20;
    let mut packets = Vec::new();
    p.push(
        &bits(&ramp(total_frames * AUDIO_CHANNELS, 0)),
        0,
        &mut packets,
    );
    for (h, payload) in &packets {
        if !drop(h.seq) {
            j.push(*h, payload);
        }
    }
    j.pull(total_frames * AUDIO_CHANNELS)
        .iter()
        .map(|s| f32::from_bits(s.bits) * (1.0 - s.fade as f32 / FADE_SAMPLES as f32))
        .collect()
}

#[test]
fn every_packet_states_the_sample_rate() {
    // Without this the receiver cannot size its buffer or open an output, and
    // the stream is silently dead.
    for rate in [SampleRate::Hz44100, SampleRate::Hz48000] {
        let mut p = AudioPacketizer::new(true, rate);
        let mut packets = Vec::new();
        p.push(
            &bits(&ramp(AUDIO_FRAMES_PER_PACKET * AUDIO_CHANNELS * 4, 0)),
            0,
            &mut packets,
        );
        let mut seen = 0;
        for (h, _) in &packets {
            assert_eq!(h.rate, Some(rate));
            seen += 1;
        }
        assert!(seen > 0, "no packets were produced");
    }
}

#[test]
fn timestamps_start_at_the_capture_clock_and_advance_with_the_audio() {
    for rate in [SampleRate::Hz44100, SampleRate::Hz48000] {
        let mut p = AudioPacketizer::new(false, rate);
        // A capture timestamp is a host clock reading, so it starts large.
        let capture = 9_876_543_210u64;
        let mut packets = Vec::new();
        p.push(
            &bits(&ramp(AUDIO_FRAMES_PER_PACKET * AUDIO_CHANNELS * 3, 0)),
            capture,
            &mut packets,
        );
        let stamps: Vec<u64> = packets.iter().map(|(h, _)| h.pts_micros).collect();
        let step = AUDIO_FRAMES_PER_PACKET as u64 * 1_000_000 / rate.hz() as u64;
        assert_eq!(stamps[0], capture, "the stream starts where capture said");
        assert_eq!(stamps[1], capture + step, "at {} Hz", rate.hz());
    }
}

#[test]
fn a_partial_packet_keeps_its_place_on_the_capture_clock() {
    let rate = SampleRate::Hz48000;
    let mut p = AudioPacketizer::new(false, rate);
    let capture = 1_000_000u64;
    let half = AUDIO_FRAMES_PER_PACKET / 2;

    // Half a packet arrives, then the rest one buffer later. The emitted
    // packet must carry the capture time of its *first* sample, even though a
    // later buffer completed it.
    let mut ignored = Vec::new();
    p.push(&bits(&ramp(half * AUDIO_CHANNELS, 0)), capture, &mut ignored);
    let later = capture + half as u64 * 1_000_000 / rate.hz() as u64;
    let mut packets = Vec::new();
    p.push(&bits(&ramp(half * AUDIO_CHANNELS, 0)), later, &mut packets);
    let stamps: Vec<u64> = packets.iter().map(|(h, _)| h.pts_micros).collect();
    assert_eq!(stamps.len(), 1);
    assert_eq!(
        stamps[0], capture,
        "stamped from the oldest sample it holds"
    );
}

#[test]
fn lossless_path_is_sample_exact() {
    let out = round_trip(|_| false);
    let expected = ramp(out.len(), 0);
    assert_eq!(out, expected, "audio must survive the round trip bit-exact");
}

#[test]
fn isolated_losses_are_repaired_exactly() {
    // Drop scattered single packets; each is recoverable from the next
    // packet's piggybacked copy.
    let out = round_trip(|seq| matches!(seq, 3 | 7 | 12 | 15));
    let expected = ramp(out.len(), 0);
    assert_eq!(out, expected, "single-packet loss must be fully recovered");
}

#[test]
fn back_to_back_loss_degrades_but_stays_aligned() {
    // Two in a row: the second is recovered from the next packet's copy, the
    // first is concealed once the reorder window makes clear it is gone.
    let out = round_trip(|seq| matches!(seq, 5 | 6));
    let expected = ramp(out.len(), 0);
    assert_eq!(out.len(), expected.len(), "timeline length is preserved");
    let per_packet = AUDIO_FRAMES_PER_PACKET * AUDIO_CHANNELS;
    // Everything before the damaged block is untouched.
    assert_eq!(out[..5 * per_packet], expected[..5 * per_packet]);
    // And the stream realigns afterwards rather than drifting.
    let tail = 10 * per_packet;
    assert_eq!(
        out[tail..],
        expected[tail..],
        "playback realigns after the gap"
    );
}

#[test]
fn every_packet_fits_one_datagram() {
    assert!(AUDIO_BLOCK_BYTES * 2 <= MAX_PAYLOAD);
    assert_eq!(SAMPLES_PER_PACKET, 128);
    let mut p = AudioPacketizer::new(true, SampleRate::Hz96000);
    let mut packets = Vec::new();
    p.push(&vec![7u32; SAMPLES_PER_PACKET * 3], 0, &mut packets);
    for (i, (h, payload)) in packets.iter().enumerate() {
        assert!(payload.len() <= MAX_PAYLOAD);
        assert_eq!(h.kind, Kind::Audio);
        assert_eq!((h.fragment_index, h.fragment_count), (0, 1));
        assert_eq!(h.flags, if i == 0 { 0 } else { flags::HAS_FEC });
        assert_eq!(payload[..4], [7, 0, 0, 0]);
    }
}

#[test]
fn how_the_input_is_cut_does_not_matter() {
    let samples = bits(&ramp(SAMPLES_PER_PACKET * 5 + 10, 0));
    let mut whole = Vec::new();
    AudioPacketizer::new(true, SampleRate::Hz48000).push(&samples, 0, &mut whole);
    let mut p = AudioPacketizer::new(true, SampleRate::Hz48000);
    let mut pieces = Vec::new();
    p.push(&samples[..200], 0, &mut pieces);
    p.push(&samples[200..], 0, &mut pieces);
    let payloads = |packets: &[(pair::packet::Header, Vec<u8>)]| {
        packets
            .iter()
            .map(|(h, payload)| (h.seq, h.flags, payload.clone()))
            .collect::<Vec<_>>()
    };
    assert_eq!(payloads(&whole), payloads(&pieces));
    assert_eq!(whole.len(), 5);
}

#[test]
fn every_block_becomes_a_packet() {
    for fec in [false, true] {
        let samples = bits(&ramp(1000, 0));
        let mut p = AudioPacketizer::new(fec, SampleRate::Hz44100);
        let mut packets = Vec::new();
        let mut rest = &samples[..];
        for cut in [3usize, 200, 0, 128, 500, 169] {
            let (now, later) = rest.split_at(cut);
            p.push(now, 0, &mut packets);
            rest = later;
        }
        assert!(rest.is_empty());
        assert_eq!(packets.len(), 1000 / 128);
        let block = |k: usize| -> Vec<u8> {
            samples[k * 128..(k + 1) * 128]
                .iter()
                .flat_map(|s| s.to_le_bytes())
                .collect()
        };
        for (k, (h, payload)) in packets.iter().enumerate() {
            assert_eq!((h.kind, h.fragment_index, h.fragment_count), (Kind::Audio, 0, 1));
            assert_eq!((h.seq, h.rate), (k as u64, Some(SampleRate::Hz44100)));
            if fec && k > 0 {
                assert_eq!(h.flags, flags::HAS_FEC);
                assert_eq!(*payload, [block(k), block(k - 1)].concat());
            } else {
                assert_eq!(h.flags, 0);
                assert_eq!(*payload, block(k));
            }
        }
    }
}
