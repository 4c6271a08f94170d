use pair::media::EncodedFrame;
use pair::packet::{Header, SampleRate};
use pair::selftest::Options;
use pair::trips::{AudioTrip, VideoTrip};

fn options(loss_percent: u32, reorder: u32, parity: usize) -> Options {
    Options {
        frames: 10,
        width: 64,
        height: 64,
        mbps: 1,
        fps: 8,
        loss_percent,
        reorder,
        parity,
    }
}

fn encoded(index: u32, keyframe: bool) -> EncodedFrame {
    EncodedFrame {
        data: vec![index as u8; 4000],
        keyframe,
        pts_micros: index as u64 * 125_000,
        params: vec![vec![1, 2], vec![3]],
    }
}

/// Encodes ten frames and takes them there and back.
fn video_run(options: &Options) -> VideoTrip {
    let mut trip = VideoTrip::new(options);
    for index in 0..10 {
        let force_key = trip.next_frame(index);
        let datagrams = trip.frame(&encoded(index, force_key));
        assert!(trip.can_transmit(datagrams.len()));
        for dg in trip.transmit(&datagrams) {
            assert!(trip.can_arrive(&dg));
            trip.arrived(&dg);
        }
        trip.drain();
    }
    trip
}

#[test]
fn every_frame_crosses_a_clean_link() {
    let trip = video_run(&options(0, 0, 1));
    let counts = trip.counts();
    assert_eq!((counts.frames, counts.keyframes), (10, 1));
    assert_eq!((counts.requests, counts.dropped, counts.reordered), (0, 0, 0));
    assert_eq!((counts.discarded, counts.resyncs, counts.repaired), (0, 0, 0));
    let received = trip.received();
    assert_eq!(received.params, Some(vec![vec![1, 2], vec![3]]));
    assert_eq!(received.frames.len(), 10);
    for (i, frame) in received.frames.iter().enumerate() {
        assert_eq!(frame.seq, i as u64);
        assert_eq!(frame.data, vec![i as u8; 4000]);
        assert_eq!(frame.pts_micros, i as u64 * 125_000);
    }
}

#[test]
fn frames_that_cross_a_lossy_link_are_intact() {
    let trip = video_run(&options(25, 3, 2));
    let counts = trip.counts();
    assert!(counts.dropped > 0 && counts.repaired > 0);
    for frame in &trip.received().frames {
        assert_eq!(frame.data, vec![frame.seq as u8; 4000]);
    }
}

#[test]
fn a_lost_stream_asks_for_a_keyframe() {
    let mut trip = VideoTrip::new(&options(0, 0, 1));
    assert!(trip.next_frame(0));
    // The first frame never arrives, and the second cannot be decoded.
    trip.frame(&encoded(0, true));
    assert!(!trip.next_frame(1));
    for dg in trip.frame(&encoded(1, false)) {
        trip.arrived(&dg);
    }
    trip.drain();
    assert_eq!(trip.counts().discarded, 1);
    assert!(trip.next_frame(2), "the request is honoured");
    assert_eq!(trip.counts().requests, 1);
    assert!(!trip.next_frame(3), "and answered once");
}

#[test]
fn junk_on_the_wire_is_ignored() {
    let mut video = VideoTrip::new(&options(0, 0, 1));
    video.arrived(&[1, 2, 3]);
    video.drain();
    assert!(video.received().frames.is_empty());
    let mut audio = AudioTrip::new(&options(0, 0, 1), SampleRate::Hz48000);
    audio.arrived(&[]);
    assert!(audio.collect().is_empty());
}

#[test]
fn audio_crosses_a_clean_link_bit_for_bit() {
    let source: Vec<u32> = (0..20_000u32).collect();
    let mut trip = AudioTrip::new(&options(0, 0, 1), SampleRate::Hz48000);
    let mut packets = Vec::new();
    while let Some(datagrams) = trip.feed(&source) {
        packets.push(datagrams.len());
        assert!(trip.can_transmit(datagrams.len()));
        for dg in trip.transmit(&datagrams) {
            assert!(trip.can_arrive(&dg));
            trip.arrived(&dg);
        }
    }
    // 2048, 1024, 4096 and 1400 samples, over again, in packets of 128.
    assert_eq!(packets, vec![16, 8, 32, 10, 16, 8, 32, 11, 16, 7]);
    assert!(trip.can_collect());
    let played = trip.collect();
    assert_eq!(played.len(), 20_000 / 128 * 128);
    assert!(played
        .iter()
        .zip(&source)
        .all(|(p, s)| p.bits == *s && p.fade == 0));
    assert_eq!(trip.stats().concealed, 0);
    assert_eq!(trip.dropped(), 0);
}

#[test]
fn what_a_link_holds_comes_out_at_the_end() {
    let source = vec![5u32; 128 * 10];
    let mut trip = AudioTrip::new(&options(0, 5, 1), SampleRate::Hz48000);
    let mut wire = Vec::new();
    while let Some(datagrams) = trip.feed(&source) {
        wire.extend(trip.transmit(&datagrams));
    }
    let early = wire.len();
    wire.extend(trip.flush());
    assert!(early < 10);
    let mut seqs: Vec<u64> = wire
        .iter()
        .map(|dg| Header::parse(dg).expect("parses").0.seq)
        .collect();
    seqs.sort();
    assert_eq!(seqs, (0..10).collect::<Vec<u64>>());
}

#[test]
fn a_clean_link_repairs_nothing_however_much_parity_there_is() {
    for parity in 0..=2 {
        let trip = video_run(&options(0, 0, parity));
        let counts = trip.counts();
        assert_eq!((counts.repaired, counts.discarded, counts.resyncs), (0, 0, 0));
        assert_eq!(trip.received().frames.len(), 10);
    }
}
