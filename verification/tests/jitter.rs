use pair::jitter::{AudioJitter, Gate, Sample, Stats, Taps, FADE_SAMPLES, REORDER_WINDOW};
use pair::packet::{flags, Header, Kind, SampleRate, AUDIO_CHANNELS, AUDIO_FRAMES_PER_PACKET};
use pair::packetize::AudioPacketizer;

/// How far the buffer may sit from its target before playback speed is nudged.
const DRIFT_DEADBAND_MS: f64 = 15.0;
/// How sharply the correction ramps once past the deadband.
const DRIFT_GAIN: f64 = 3.0;
/// Largest playback speed adjustment, as a fraction.
const MAX_DRIFT: f64 = 0.001;
/// Smoothing applied to the measured depth.
const DEPTH_SMOOTHING: f64 = 32.0;

fn value(sample: Sample) -> f32 {
    f32::from_bits(sample.bits) * (1.0 - sample.fade as f32 / FADE_SAMPLES as f32)
}

/// Plays a jitter buffer at the speed that holds it at its target.
struct Player {
    smoothed_depth: f64,
    ratio: f64,
    phase: f64,
    drift_ppm: i32,
}

impl Player {
    fn new() -> Self {
        Player {
            smoothed_depth: 0.0,
            ratio: 1.0,
            phase: 0.0,
            drift_ppm: 0,
        }
    }

    fn update_drift(&mut self, j: &AudioJitter) {
        let (Some(rate), true) = (j.rate(), j.target() > 0) else {
            self.ratio = 1.0;
            self.drift_ppm = 0;
            return;
        };
        let depth = j.depth() as f64;
        self.smoothed_depth += (depth - self.smoothed_depth) / DEPTH_SMOOTHING;
        let deadband = DRIFT_DEADBAND_MS / 1000.0 * rate.hz() as f64 * AUDIO_CHANNELS as f64;
        let error = self.smoothed_depth - j.target() as f64;
        if error.abs() <= deadband {
            self.ratio = 1.0;
            self.drift_ppm = 0;
            return;
        }
        let excess = (error.abs() - deadband) / deadband;
        let correction = (excess * DRIFT_GAIN * MAX_DRIFT).min(MAX_DRIFT) * error.signum();
        self.drift_ppm = (correction * 1_000_000.0) as i32;
        self.ratio = if self.drift_ppm == 0 { 1.0 } else { 1.0 + correction };
    }

    fn pull(&mut self, j: &mut AudioJitter, out: &mut [f32]) {
        match j.begin() {
            Gate::Waiting => {
                out.fill(0.0);
                return;
            }
            Gate::Opened => self.smoothed_depth = j.depth() as f64,
            Gate::Running => {}
        }
        self.update_drift(j);
        let before = j.stats.underruns;
        if self.ratio == 1.0 {
            let samples = j.pull(out.len());
            for (slot, sample) in out.iter_mut().zip(samples) {
                *slot = value(sample);
            }
        } else {
            let mut positions = Vec::new();
            let mut fractions = Vec::new();
            for _ in 0..out.len() / AUDIO_CHANNELS {
                let index = self.phase.floor() as usize;
                positions.push(index);
                fractions.push((self.phase - index as f64) as f32);
                self.phase += self.ratio;
            }
            let advance = self.phase.floor() as usize;
            out.fill(0.0);
            let taps = j.pull_resampled(&positions, advance, self.drift_ppm);
            for (i, t) in taps.iter().enumerate() {
                for (channel, (a, b)) in [t.left, t.right].into_iter().enumerate() {
                    let (a, b) = (value(a), value(b));
                    out[i * AUDIO_CHANNELS + channel] = a + (b - a) * fractions[i];
                }
            }
            self.phase -= advance as f64;
        }
        if j.stats.underruns > before {
            self.phase = 0.0;
            self.ratio = 1.0;
        }
    }
}

fn pull(j: &mut AudioJitter, out: &mut [f32]) {
    Player::new().pull(j, out);
}

fn block(value: f32) -> Vec<u8> {
    std::iter::repeat_n(value, AUDIO_FRAMES_PER_PACKET * AUDIO_CHANNELS)
        .flat_map(f32::to_le_bytes)
        .collect()
}

fn header(seq: u64, fec: bool) -> Header {
    Header {
        kind: Kind::Audio,
        fragment_index: 0,
        fragment_count: 1,
        seq,
        pts_micros: 0,
        flags: if fec { flags::HAS_FEC } else { 0 },
        rate: Some(SampleRate::Hz48000),
    }
}

/// Sends packet `seq` carrying its own block plus the previous as FEC.
fn packet(seq: u64) -> (Header, Vec<u8>) {
    let mut payload = block(seq as f32);
    payload.extend_from_slice(&block(seq.wrapping_sub(1) as f32));
    (header(seq, true), payload)
}

fn bits(samples: &[f32]) -> Vec<u32> {
    samples.iter().map(|s| s.to_bits()).collect()
}

#[test]
fn in_order_audio_passes_through_untouched() {
    let mut j = AudioJitter::new(0);
    for seq in 0..4 {
        let (h, p) = packet(seq);
        j.push(h, &p);
    }
    let mut out = vec![0.0; AUDIO_FRAMES_PER_PACKET * AUDIO_CHANNELS * 4];
    pull(&mut j, &mut out);
    for (i, chunk) in out
        .chunks(AUDIO_FRAMES_PER_PACKET * AUDIO_CHANNELS)
        .enumerate()
    {
        assert!(chunk.iter().all(|&s| s == i as f32), "block {i} intact");
    }
    assert_eq!(j.stats, Stats::default(), "clean stream needs no repair");
}

#[test]
fn single_loss_is_fully_recovered_by_fec() {
    let mut j = AudioJitter::new(0);
    for seq in [0u64, 1, /* 2 dropped */ 3] {
        let (h, p) = packet(seq);
        j.push(h, &p);
    }
    let mut out = vec![0.0; AUDIO_FRAMES_PER_PACKET * AUDIO_CHANNELS * 4];
    pull(&mut j, &mut out);
    let third = &out[AUDIO_FRAMES_PER_PACKET * AUDIO_CHANNELS * 2..]
        [..AUDIO_FRAMES_PER_PACKET * AUDIO_CHANNELS];
    assert!(
        third.iter().all(|&s| s == 2.0),
        "lost block rebuilt exactly"
    );
    assert_eq!(j.stats.recovered, 1);
    assert_eq!(j.stats.concealed, 0, "FEC recovery is not concealment");
}

#[test]
fn burst_loss_is_concealed_only_once_it_is_clearly_lost() {
    let mut j = AudioJitter::new(0);
    let (h, p) = packet(0);
    j.push(h, &p);
    // Drop 1 and 2. Packet 3 carries a copy of 2, so 2 is free to repair.
    let (h, p) = packet(3);
    j.push(h, &p);
    assert_eq!(j.stats.recovered, 1, "the adjacent block is recovered");
    assert_eq!(
        j.stats.concealed, 0,
        "packet 1 might still be merely reordered, so do not give up yet"
    );

    // Once the backlog outgrows the reorder window, it is gone for good.
    for seq in 4..4 + REORDER_WINDOW as u64 + 2 {
        let (h, p) = packet(seq);
        j.push(h, &p);
    }
    assert_eq!(j.stats.concealed, 1, "the lost block is concealed");
}

#[test]
fn reordered_packets_are_played_in_their_right_order() {
    let mut j = AudioJitter::new(0);
    // Arriving 0, 2, 1, 3: nothing is lost, only shuffled. FEC is off here so
    // this measures reordering alone rather than repair.
    for seq in [0u64, 2, 1, 3] {
        j.push(header(seq, false), &block(seq as f32));
    }
    let mut out = vec![0.0; AUDIO_FRAMES_PER_PACKET * AUDIO_CHANNELS * 4];
    pull(&mut j, &mut out);
    for (i, chunk) in out
        .chunks(AUDIO_FRAMES_PER_PACKET * AUDIO_CHANNELS)
        .enumerate()
    {
        assert!(
            chunk.iter().all(|&v| v == i as f32),
            "block {i} must play in sequence order"
        );
    }
    assert_eq!(j.stats.concealed, 0, "reordering is not loss");
    assert_eq!(j.stats.late, 0);
}

#[test]
fn late_and_duplicate_packets_are_dropped() {
    let mut j = AudioJitter::new(0);
    for seq in 0..3 {
        let (h, p) = packet(seq);
        j.push(h, &p);
    }
    let depth = j.depth();
    let (h, p) = packet(1);
    j.push(h, &p);
    assert_eq!(j.depth(), depth, "a late packet must not inject audio");
    assert_eq!(j.stats.late, 1);
}

#[test]
fn malformed_payloads_are_ignored() {
    let mut j = AudioJitter::new(0);
    for bad in [vec![], vec![0u8; 3], vec![0u8; 9]] {
        j.push(header(0, false), &bad);
        assert_eq!(j.depth(), 0, "garbage must not enter the buffer");
    }
    // Odd number of blocks cannot be split into current + FEC halves.
    j.push(header(0, true), &[0u8; AUDIO_CHANNELS * 4 * 3]);
    assert_eq!(j.depth(), 0);
}

#[test]
fn underrun_pads_with_silence_and_rebuffers() {
    let mut j = AudioJitter::new(0);
    let (h, p) = packet(0);
    j.push(h, &p);
    let mut out = vec![9.0; AUDIO_FRAMES_PER_PACKET * AUDIO_CHANNELS * 2];
    pull(&mut j, &mut out);
    assert!(out[AUDIO_FRAMES_PER_PACKET * AUDIO_CHANNELS..]
        .iter()
        .all(|&s| s == 0.0));
    assert_eq!(j.stats.underruns, 1);
    assert_eq!(j.begin(), Gate::Opened, "should re-buffer after starving");
}

/// Plays a stream in real-time-sized blocks while the sender's clock runs at
/// `drift_ppm` relative to ours, and reports what the buffer did.
fn simulate_drift(drift_ppm: f64, seconds: f64) -> (Stats, usize) {
    let rate = SampleRate::Hz48000;
    let mut sender = AudioPacketizer::new(false, rate);
    let mut j = AudioJitter::new(30);
    let mut player = Player::new();

    // A typical CoreAudio callback size.
    let block_frames = 512usize;
    let pulls = (seconds * rate.hz() as f64 / block_frames as f64) as usize;
    let mut out = vec![0.0f32; block_frames * AUDIO_CHANNELS];

    // Start at the buffer's own target depth, which is where a real receiver
    // settles once playback begins.
    let mut produced = rate.hz() as f64 * 0.030;
    let mut delivered = 0usize;

    for _ in 0..pulls {
        // The sender's clock differs slightly from ours.
        produced += block_frames as f64 * (1.0 + drift_ppm / 1_000_000.0);
        let want = produced as usize;
        if want > delivered {
            let samples: Vec<u32> = (delivered..want)
                .flat_map(|f| {
                    let v = (f % 1000) as f32 / 1000.0;
                    [v.to_bits(), (-v).to_bits()]
                })
                .collect();
            let mut packets = Vec::new();
            sender.push(&samples, 0, &mut packets);
            for (h, p) in &packets {
                j.push(*h, p);
            }
            delivered = want;
        }
        player.pull(&mut j, &mut out);
    }
    (j.stats, j.depth())
}

#[test]
fn a_slow_sender_does_not_starve_the_buffer() {
    // 300 ppm is several times a realistic crystal error, and over two minutes
    // it exceeds the whole 30 ms buffer. Without compensation this is an
    // audible dropout; with it, playback simply slows imperceptibly.
    let (stats, depth) = simulate_drift(-300.0, 120.0);
    assert_eq!(stats.underruns, 0, "clock drift must not cause dropouts");
    assert!(depth > 0, "buffer should still hold audio, got {depth}");
}

#[test]
fn a_fast_sender_does_not_let_latency_grow_without_bound() {
    let (stats, depth) = simulate_drift(300.0, 120.0);
    assert_eq!(stats.underruns, 0);
    // Two minutes at 300 ppm is 36 ms of extra audio. Held near the 30 ms
    // target it stays well under that; uncorrected it would simply pile up.
    let target = (48_000.0 * 0.030) as usize * AUDIO_CHANNELS;
    assert!(
        depth < target * 3,
        "latency ran away: depth {depth} against target {target}"
    );
}

#[test]
fn a_matched_clock_plays_bit_exactly() {
    let (stats, _) = simulate_drift(0.0, 30.0);
    assert_eq!(stats.underruns, 0);
    assert_eq!(
        stats.drift_ppm, 0,
        "with clocks in step the audio must be passed through untouched"
    );
}

#[test]
fn the_correction_stays_inaudible() {
    // Even against drift far beyond anything real, the speed change is clamped
    // well below what anyone could hear.
    for drift in [-5000.0, 5000.0] {
        let (stats, _) = simulate_drift(drift, 30.0);
        let limit = (MAX_DRIFT * 1_000_000.0) as i32;
        assert!(
            stats.drift_ppm.abs() <= limit,
            "correction {} ppm exceeded the {limit} ppm limit",
            stats.drift_ppm
        );
    }
}

#[test]
fn playback_timestamp_tracks_the_audio_actually_being_played() {
    let rate = SampleRate::Hz48000;
    let mut sender = AudioPacketizer::new(false, rate);
    let mut j = AudioJitter::new(0);
    assert_eq!(j.playback_pts_micros(), None, "nothing playing yet");

    // Five packets' worth, timestamped by the real packetizer.
    let frames = AUDIO_FRAMES_PER_PACKET * 5;
    let samples = vec![0.25f32.to_bits(); frames * AUDIO_CHANNELS];
    let mut packets = Vec::new();
    sender.push(&samples, 0, &mut packets);
    for (h, p) in &packets {
        j.push(*h, p);
    }

    // However much is queued, the read head is still at the start.
    assert_eq!(
        j.playback_pts_micros(),
        Some(0),
        "the read head is at the oldest audio held"
    );

    // Consuming two packets' worth advances it by exactly that duration.
    let consumed_frames = AUDIO_FRAMES_PER_PACKET * 2;
    let mut out = vec![0.0; consumed_frames * AUDIO_CHANNELS];
    pull(&mut j, &mut out);
    let expected = consumed_frames as u64 * 1_000_000 / rate.hz() as u64;
    assert_eq!(j.playback_pts_micros(), Some(expected));
}

#[test]
fn holds_playback_until_target_depth() {
    let mut j = AudioJitter::new(20);
    let (h, p) = packet(0);
    j.push(h, &p);
    let mut out = vec![9.0; 64];
    pull(&mut j, &mut out);
    assert!(
        out.iter().all(|&s| s == 0.0),
        "must not start under target depth"
    );
}

#[test]
fn a_concealed_block_holds_the_last_frame_and_fades() {
    let mut j = AudioJitter::new(0);
    j.push(header(0, false), &block(2.0));
    for seq in 2..2 + REORDER_WINDOW as u64 + 1 {
        j.push(header(seq, false), &block(5.0));
    }
    assert_eq!(j.stats.concealed, 1);
    let per_block = AUDIO_FRAMES_PER_PACKET * AUDIO_CHANNELS;
    let out = j.pull(per_block * 3);
    for (i, sample) in out[per_block..2 * per_block].iter().enumerate() {
        let frame = i / AUDIO_CHANNELS;
        assert_eq!(sample.bits, 2.0f32.to_bits());
        assert_eq!(sample.fade as usize, frame);
        let gain = 1.0 - (frame as f32 / FADE_SAMPLES as f32).min(1.0);
        assert_eq!(value(*sample), 2.0 * gain);
    }
    assert!(out[2 * per_block..].iter().all(|s| value(*s) == 5.0));
}

#[test]
fn a_long_concealment_falls_silent() {
    let mut j = AudioJitter::new(0);
    let long: Vec<u8> = std::iter::repeat_n(1.0f32, 100 * AUDIO_CHANNELS)
        .flat_map(f32::to_le_bytes)
        .collect();
    j.push(header(0, false), &long);
    for seq in 2..2 + REORDER_WINDOW as u64 + 1 {
        j.push(header(seq, false), &long);
    }
    let out = j.pull(200 * AUDIO_CHANNELS);
    let concealed = &out[100 * AUDIO_CHANNELS..];
    assert_eq!(value(concealed[63 * AUDIO_CHANNELS]), 1.0 / 64.0);
    assert!(concealed[64 * AUDIO_CHANNELS..]
        .iter()
        .all(|s| value(*s) == 0.0));
}

#[test]
fn the_target_follows_the_rate_of_the_stream() {
    for (rate, target) in [
        (SampleRate::Hz44100, 44_100 * 30 / 1000 * 2),
        (SampleRate::Hz48000, 2880),
        (SampleRate::Hz96000, 5760),
    ] {
        let mut j = AudioJitter::new(30);
        assert_eq!(j.rate(), None);
        let mut h = header(0, false);
        h.rate = Some(rate);
        j.push(h, &block(0.0));
        assert_eq!(j.rate(), Some(rate));
        assert_eq!(j.target(), target);
    }
}

#[test]
fn pulling_in_pieces_gives_the_same_audio() {
    let samples: Vec<u32> = bits(&(0..64 * 6).map(|i| i as f32).collect::<Vec<f32>>());
    let mut packets = Vec::new();
    AudioPacketizer::new(false, SampleRate::Hz48000).push(&samples, 0, &mut packets);
    let (mut whole, mut pieces) = (AudioJitter::new(0), AudioJitter::new(0));
    for (h, p) in &packets {
        whole.push(*h, p);
        pieces.push(*h, p);
    }
    let all = whole.pull(samples.len());
    let mut parts = pieces.pull(96);
    parts.extend(pieces.pull(samples.len() - 96));
    assert_eq!(all, parts);
    assert_eq!(
        all.iter().map(|s| s.bits).collect::<Vec<u32>>(),
        samples,
        "bit for bit"
    );
    assert_eq!(whole.playback_pts_micros(), pieces.playback_pts_micros());
}

#[test]
fn resampling_reads_between_neighbouring_frames() {
    let samples = bits(&(0..128).map(|i| i as f32).collect::<Vec<f32>>());
    let mut packets = Vec::new();
    AudioPacketizer::new(false, SampleRate::Hz48000).push(&samples, 0, &mut packets);
    let mut j = AudioJitter::new(0);
    for (h, p) in &packets {
        j.push(*h, p);
    }
    assert_eq!(j.begin(), Gate::Opened);
    assert_eq!(j.begin(), Gate::Running);
    let at = |i: usize| Sample {
        bits: (i as f32).to_bits(),
        fade: 0,
    };
    let taps = j.pull_resampled(&[0, 1, 1], 3, 500);
    assert_eq!(
        taps,
        vec![
            Taps {
                left: (at(0), at(2)),
                right: (at(1), at(3))
            },
            Taps {
                left: (at(2), at(4)),
                right: (at(3), at(5))
            },
            Taps {
                left: (at(2), at(4)),
                right: (at(3), at(5))
            },
        ]
    );
    assert_eq!(j.stats.drift_ppm, 500);
    assert_eq!(j.depth(), 128 - 6);
    assert_eq!(j.playback_pts_micros(), Some(3 * 1_000_000 / 48_000));

    // Past the end it starves: 61 frames are left, and the frame after the one
    // read at is needed too.
    let taps = j.pull_resampled(&[59, 60], 61, 500);
    assert_eq!(taps.len(), 1);
    assert_eq!(j.stats.underruns, 1);
    assert_eq!(j.depth(), 0);
    assert_eq!(j.playback_pts_micros(), None);
}

#[test]
fn a_payload_splits_into_the_block_and_its_predecessor() {
    let payload: Vec<u8> = (0..16).collect();
    assert_eq!(
        AudioJitter::split(&header(0, false), &payload),
        Some((&payload[..], None))
    );
    assert_eq!(
        AudioJitter::split(&header(0, true), &payload),
        Some((&payload[..8], Some(&payload[8..])))
    );
    assert_eq!(AudioJitter::split(&header(0, true), &payload[..8]), None);
    assert_eq!(AudioJitter::split(&header(0, false), &payload[..7]), None);
    assert_eq!(AudioJitter::split(&header(0, false), &[]), None);
}

fn stamped(seq: u64, pts_micros: u64) -> Header {
    Header {
        pts_micros,
        ..header(seq, false)
    }
}

#[test]
fn a_late_duplicate_leaves_the_playback_timestamp_alone() {
    let mut j = AudioJitter::new(0);
    let b = [0u8; 512];
    j.push(stamped(0, 10_000), &b);
    j.push(stamped(1, 11_333), &b);
    j.push(stamped(0, 10_000), &b);
    assert_eq!(j.playback_pts_micros(), Some(10_000));
    assert_eq!(j.counted().late, 1);
}

#[test]
fn a_packet_ahead_of_a_gap_does_not_move_the_playback_timestamp() {
    let mut j = AudioJitter::new(0);
    let b = [0u8; 512];
    j.push(stamped(0, 10_000), &b);
    // Packets 1 and 2 are missing: 64 frames each, besides the 64 queued.
    j.push(stamped(3, 14_000), &b);
    assert_eq!(j.playback_pts_micros(), Some(10_000));
    // What was captured before the clock began is taken to be at its start.
    let mut j = AudioJitter::new(0);
    j.push(stamped(0, 10_000), &b);
    j.push(stamped(u64::MAX - 1, 14_000), &b);
    assert_eq!(j.playback_pts_micros(), Some(0));
}

#[test]
fn the_correction_limit_is_in_parts_per_million() {
    assert_eq!(pair::jitter::MAX_DRIFT_PPM, (MAX_DRIFT * 1_000_000.0) as i32);
}
