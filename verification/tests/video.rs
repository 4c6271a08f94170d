use pair::fec;
use pair::packet::{flags, Header, Kind, HEADER_LEN, MAX_PAYLOAD, MTU};
use pair::video::{Depacketizer, Frame, Framer, Loss, Received, REORDER_WINDOW};

fn params() -> Vec<Vec<u8>> {
    vec![vec![1u8, 2, 3], vec![4u8; 40], vec![5u8; 12]]
}

fn framed(f: &mut Framer, frame: Frame<'_>) -> Vec<Vec<u8>> {
    let mut datagrams = Vec::new();
    f.send(frame, &mut datagrams);
    datagrams
}

/// Pushes one frame through framing, the wire, and depacketizing.
fn round_trip(d: &mut Depacketizer, f: &mut Framer, frame: Frame<'_>) -> Vec<Received> {
    let datagrams = framed(f, frame);
    for dg in &datagrams {
        let (header, body) = Header::parse(dg).expect("parses");
        d.push(header, body);
    }
    drain(d)
}

/// Everything the depacketizer is willing to release right now.
fn drain(d: &mut Depacketizer) -> Vec<Received> {
    let mut out = Vec::new();
    loop {
        match d.poll() {
            Received::Pending => return out,
            other => out.push(other),
        }
    }
}

/// The frame's outcome, which is whichever datagram completed it. The trailing
/// parity datagrams correctly report nothing.
fn last(results: Vec<Received>) -> Received {
    results.into_iter().next().unwrap_or(Received::Pending)
}

fn fraction(loss: Loss) -> f32 {
    1.0 - loss.completed as f32 / loss.expected as f32
}

#[test]
fn keyframe_round_trips_with_its_parameter_sets() {
    let (mut f, mut d) = (Framer::new(), Depacketizer::new());
    let data = vec![9u8; MAX_PAYLOAD * 3 + 11];
    let sets = params();
    let got = last(round_trip(
        &mut d,
        &mut f,
        Frame {
            data: &data,
            params: &sets,
            keyframe: true,
            pts_micros: 4242,
        },
    ));
    assert_eq!(
        got,
        Received::Frame {
            seq: 0,
            params: Some(sets),
            data,
            pts_micros: 4242
        },
        "a keyframe must survive fragmentation intact"
    );
}

#[test]
fn frames_before_the_first_keyframe_are_refused() {
    let (mut f, mut d) = (Framer::new(), Depacketizer::new());
    let sets = params();
    // A P-frame arriving first references pictures we never saw.
    let got = last(round_trip(
        &mut d,
        &mut f,
        Frame {
            data: &[7u8; 64],
            params: &sets,
            keyframe: false,
            pts_micros: 0,
        },
    ));
    assert_eq!(got, Received::NeedKeyframe);

    // Once a keyframe lands, the stream opens up.
    let got = last(round_trip(
        &mut d,
        &mut f,
        Frame {
            data: &[8u8; 64],
            params: &sets,
            keyframe: true,
            pts_micros: 1,
        },
    ));
    assert!(matches!(got, Received::Frame { .. }));
}

#[test]
fn a_lost_frame_forces_a_resync_until_the_next_keyframe() {
    let (mut f, mut d) = (Framer::new(), Depacketizer::new());
    let sets = params();
    let frame = |keyframe, pts_micros| Frame {
        data: &[3u8; 64],
        params: &sets,
        keyframe,
        pts_micros,
    };

    assert!(matches!(
        last(round_trip(&mut d, &mut f, frame(true, 0))),
        Received::Frame { .. }
    ));
    assert!(matches!(
        last(round_trip(&mut d, &mut f, frame(false, 1))),
        Received::Frame { .. }
    ));

    // Drop the next frame entirely: frame it, then never deliver it.
    framed(&mut f, frame(false, 2));

    // The gap is held open for a few frames in case it was merely reordered,
    // so nothing is released while we wait.
    for pts in 3..3 + REORDER_WINDOW as u64 {
        assert!(
            round_trip(&mut d, &mut f, frame(false, pts)).is_empty(),
            "must wait rather than skip a frame that might be reordered"
        );
    }

    // Once the backlog outgrows the window it is lost for good, and everything
    // after it references pictures we do not have.
    let results = round_trip(&mut d, &mut f, frame(false, 99));
    assert_eq!(
        results.first(),
        Some(&Received::NeedKeyframe),
        "gap gives up"
    );
    assert_eq!(d.resyncs, 1);

    // A keyframe restores the stream.
    let results = round_trip(&mut d, &mut f, frame(true, 100));
    assert!(
        results.iter().any(|r| matches!(r, Received::Frame { .. })),
        "a keyframe must restore playback"
    );
}

#[test]
fn frames_completing_out_of_order_are_released_in_order() {
    let (mut f, mut d) = (Framer::new(), Depacketizer::new());
    let sets = params();
    // Frame each of three, but deliver the middle one last.
    let mut wire: Vec<Vec<Vec<u8>>> = Vec::new();
    for (i, keyframe) in [true, false, false].into_iter().enumerate() {
        let data = vec![i as u8 + 1; 64];
        wire.push(framed(
            &mut f,
            Frame {
                data: &data,
                params: &sets,
                keyframe,
                pts_micros: i as u64,
            },
        ));
    }

    let mut released = Vec::new();
    for order in [0usize, 2, 1] {
        for dg in &wire[order] {
            let (h, b) = Header::parse(dg).expect("parses");
            d.push(h, b);
        }
        released.extend(drain(&mut d));
    }

    let stamps: Vec<u64> = released
        .iter()
        .filter_map(|r| match r {
            Received::Frame { pts_micros, .. } => Some(*pts_micros),
            _ => None,
        })
        .collect();
    assert_eq!(
        stamps,
        vec![0, 1, 2],
        "frames must come out in sequence order"
    );
    assert_eq!(d.resyncs, 0, "reordering is not loss");
}

#[test]
fn a_duplicated_frame_is_released_only_once() {
    let (mut f, mut d) = (Framer::new(), Depacketizer::new());
    let sets = params();
    let dgs = framed(
        &mut f,
        Frame {
            data: &[4u8; 64],
            params: &sets,
            keyframe: true,
            pts_micros: 7,
        },
    );
    let mut released = Vec::new();
    for dg in dgs.iter().chain(dgs.iter()) {
        let (h, b) = Header::parse(dg).expect("parses");
        d.push(h, b);
        released.extend(drain(&mut d));
    }
    let frames = released
        .iter()
        .filter(|r| matches!(r, Received::Frame { .. }))
        .count();
    assert_eq!(frames, 1, "a retransmitted frame must not be shown twice");
}

#[test]
fn loss_is_measured_from_sequence_gaps() {
    let (mut f, mut d) = (Framer::new(), Depacketizer::new());
    let sets = params();
    let frame = |k| Frame {
        data: &[1u8; 32],
        params: &sets,
        keyframe: k,
        pts_micros: 0,
    };

    assert_eq!(d.take_loss(), None, "nothing seen yet");

    // Ten frames, of which three never arrive.
    for seq in 0..10 {
        let datagrams = framed(&mut f, frame(seq == 0));
        if matches!(seq, 3 | 5 | 7) {
            continue;
        }
        for dg in &datagrams {
            let (h, b) = Header::parse(dg).expect("parses");
            d.push(h, b);
        }
        drain(&mut d);
    }
    // Frames still waiting behind the gap have to be let out before the window
    // can be judged.
    d.flush();
    drain(&mut d);
    let loss = fraction(d.take_loss().expect("a window was measured"));
    assert!(
        (loss - 0.3).abs() < 0.01,
        "expected about 30% loss, got {loss}"
    );

    // The window resets, so a clean stretch reads as clean.
    for seq in 10..20 {
        let datagrams = framed(&mut f, frame(seq == 10));
        for dg in &datagrams {
            let (h, b) = Header::parse(dg).expect("parses");
            d.push(h, b);
        }
        drain(&mut d);
    }
    d.flush();
    drain(&mut d);
    assert_eq!(
        d.take_loss().map(fraction),
        Some(0.0),
        "a clean window must read as clean"
    );
}

#[test]
fn parity_rebuilds_a_lost_fragment() {
    let (mut f, mut d) = (Framer::new(), Depacketizer::new());
    let sets = params();
    // Large enough to span several fragments and so carry parity.
    let data: Vec<u8> = (0..fec::BLOCK * 4 + 9).map(|i| (i % 251) as u8).collect();

    let datagrams = framed(
        &mut f,
        Frame {
            data: &data,
            params: &sets,
            keyframe: true,
            pts_micros: 11,
        },
    );
    let parity_count = datagrams
        .iter()
        .filter(|dg| Header::parse(dg).expect("parses").0.has(flags::PARITY))
        .count();
    assert!(parity_count > 0, "a multi-fragment frame must carry parity");

    // Drop the second picture-carrying datagram outright.
    let mut dropped = false;
    let mut results = Vec::new();
    for dg in &datagrams {
        let (header, body) = Header::parse(dg).expect("parses");
        if !header.has(flags::PARITY) && header.fragment_index == 1 && !dropped {
            dropped = true;
            continue;
        }
        d.push(header, body);
        results.extend(drain(&mut d));
    }

    assert_eq!(
        last(results),
        Received::Frame {
            seq: 0,
            params: Some(sets),
            data,
            pts_micros: 11
        },
        "the lost fragment must be rebuilt from parity, byte for byte"
    );
}

#[test]
fn two_losses_in_one_group_are_rebuilt_with_two_parity_blocks() {
    let mut f = Framer::new();
    f.set_parity(2);
    let mut d = Depacketizer::new();
    let sets = params();
    let data: Vec<u8> = (0..fec::BLOCK * 5).map(|i| (i % 251) as u8).collect();
    let datagrams = framed(
        &mut f,
        Frame {
            data: &data,
            params: &sets,
            keyframe: true,
            pts_micros: 3,
        },
    );

    // Drop two picture-carrying datagrams from the same group.
    for dg in &datagrams {
        let (header, body) = Header::parse(dg).expect("parses");
        if !header.has(flags::PARITY) && matches!(header.fragment_index, 1 | 3) {
            continue;
        }
        d.push(header, body);
    }
    assert_eq!(
        last(drain(&mut d)),
        Received::Frame {
            seq: 0,
            params: Some(sets),
            data,
            pts_micros: 3
        },
        "two losses in one group must be rebuilt exactly"
    );
    assert_eq!(d.repaired(), 2);
}

#[test]
fn two_losses_in_one_group_are_not_recoverable_with_one_parity_block() {
    let (mut f, mut d) = (Framer::new(), Depacketizer::new());
    let sets = params();
    let data: Vec<u8> = (0..fec::BLOCK * 4).map(|i| (i % 251) as u8).collect();
    let datagrams = framed(
        &mut f,
        Frame {
            data: &data,
            params: &sets,
            keyframe: true,
            pts_micros: 0,
        },
    );

    let mut results = Vec::new();
    for dg in &datagrams {
        let (header, body) = Header::parse(dg).expect("parses");
        if !header.has(flags::PARITY) && matches!(header.fragment_index, 1 | 2) {
            continue;
        }
        d.push(header, body);
        results.extend(drain(&mut d));
    }
    assert_eq!(
        last(results),
        Received::Pending,
        "one parity block cannot fix two holes"
    );
}

#[test]
fn a_single_fragment_frame_carries_no_parity() {
    let mut f = Framer::new();
    let sets = params();
    // Parity for a lone fragment would just be a copy of it.
    let datagrams = framed(
        &mut f,
        Frame {
            data: &[1u8; 16],
            params: &sets,
            keyframe: false,
            pts_micros: 0,
        },
    );
    let count = datagrams.len();
    assert_eq!(count, 1, "no parity is worth sending for one fragment");
}

#[test]
fn sequence_numbers_are_dense_and_start_at_zero() {
    let mut f = Framer::new();
    let sets = params();
    for expected in 0..5u64 {
        let mut ignored = Vec::new();
        let seq = f.send(
            Frame {
                data: &[0u8; 16],
                params: &sets,
                keyframe: false,
                pts_micros: 0,
            },
            &mut ignored,
        );
        assert_eq!(seq, expected);
    }
}

#[test]
fn a_frame_with_no_parameter_sets_still_carries_its_payload() {
    let (mut f, mut d) = (Framer::new(), Depacketizer::new());
    let sets = params();
    round_trip(
        &mut d,
        &mut f,
        Frame {
            data: &[1u8; 32],
            params: &sets,
            keyframe: true,
            pts_micros: 0,
        },
    );
    let got = last(round_trip(
        &mut d,
        &mut f,
        Frame {
            data: &[2u8; 32],
            params: &[],
            keyframe: false,
            pts_micros: 99,
        },
    ));
    assert_eq!(
        got,
        Received::Frame {
            seq: 1,
            params: None,
            data: vec![2u8; 32],
            pts_micros: 99
        }
    );
}

#[test]
fn every_datagram_is_sound() {
    let mut f = Framer::default();
    f.set_parity(2);
    let data = vec![6u8; fec::BLOCK * 23 + 5];
    let datagrams = framed(
        &mut f,
        Frame {
            data: &data,
            params: &params(),
            keyframe: true,
            pts_micros: 5,
        },
    );
    let mut parity = 0;
    for dg in &datagrams {
        assert!(dg.len() <= MTU);
        let (header, body) = Header::parse(dg).expect("parses");
        assert_eq!(header.kind, Kind::Video);
        assert_eq!(header.fragment_count, 24);
        if header.has(flags::PARITY) {
            parity += 1;
            assert_eq!(body.len(), fec::LEVEL_PREFIX + fec::PARITY_LEN);
        }
    }
    // Three groups of ten, two blocks each.
    assert_eq!(parity, 6);
    assert_eq!(datagrams.len(), 24 + 6);
}

#[test]
fn without_fec_only_the_picture_is_sent() {
    let mut f = Framer::without_fec();
    let data = vec![6u8; fec::BLOCK * 3];
    let datagrams = framed(
        &mut f,
        Frame {
            data: &data,
            params: &[],
            keyframe: false,
            pts_micros: 5,
        },
    );
    assert_eq!(datagrams.len(), 3);
    let (header, body) = Header::parse(&datagrams[0]).expect("parses");
    assert_eq!(header.flags, 0);
    assert_eq!(body, &datagrams[0][HEADER_LEN..]);
    assert_eq!(fec::decode_fragment(body), Some(&data[..fec::BLOCK]));
}

#[test]
fn the_parity_asked_for_is_capped() {
    for (asked, sent) in [(0usize, 0usize), (1, 1), (2, 2), (9, 2)] {
        let mut f = Framer::new();
        f.set_parity(asked);
        let data = vec![6u8; fec::BLOCK * 2];
        let datagrams = framed(
            &mut f,
            Frame {
                data: &data,
                params: &[],
                keyframe: false,
                pts_micros: 5,
            },
        );
        assert_eq!(datagrams.len(), 2 + sent, "asked for {asked}");
    }
}

#[test]
fn all_data_is_enough_without_any_parity() {
    let (mut f, mut d) = (Framer::new(), Depacketizer::new());
    let data: Vec<u8> = (0..fec::BLOCK * 12).map(|i| (i % 251) as u8).collect();
    let mut datagrams = framed(
        &mut f,
        Frame {
            data: &data,
            params: &params(),
            keyframe: true,
            pts_micros: 1,
        },
    );
    datagrams.reverse();
    for dg in &datagrams {
        let (header, body) = Header::parse(dg).expect("parses");
        if !header.has(flags::PARITY) {
            d.push(header, body);
        }
    }
    assert_eq!(
        last(drain(&mut d)),
        Received::Frame {
            seq: 0,
            params: Some(params()),
            data,
            pts_micros: 1
        }
    );
    assert_eq!(d.repaired(), 0);
}

#[test]
fn one_frame_says_nothing_about_loss() {
    let (mut f, mut d) = (Framer::new(), Depacketizer::default());
    round_trip(
        &mut d,
        &mut f,
        Frame {
            data: &[1u8; 32],
            params: &params(),
            keyframe: true,
            pts_micros: 0,
        },
    );
    assert_eq!(d.take_loss(), None);
    assert!(d.has_headroom());
}

#[test]
fn a_discarded_frame_is_counted() {
    let (mut f, mut d) = (Framer::new(), Depacketizer::new());
    let results = round_trip(
        &mut d,
        &mut f,
        Frame {
            data: &[7u8; 64],
            params: &[],
            keyframe: false,
            pts_micros: 0,
        },
    );
    assert_eq!(results, vec![Received::NeedKeyframe]);
    assert_eq!(d.discarded, 1);
    assert_eq!(d.poll(), Received::Pending);
}

#[test]
fn a_clean_frame_counts_nothing_as_rebuilt() {
    let mut f = Framer::new();
    f.set_parity(2);
    let datagrams = framed(
        &mut f,
        Frame {
            data: &[1u8; 2 * 1253],
            params: &[],
            keyframe: true,
            pts_micros: 0,
        },
    );
    assert_eq!(datagrams.len(), 4);
    let mut d = Depacketizer::new();
    for dg in &datagrams {
        let (header, body) = Header::parse(dg).expect("parses");
        d.push(header, body);
    }
    assert_eq!(d.repaired(), 0);
}

#[test]
fn every_result_takes_one_number() {
    let (mut f, mut d) = (Framer::new(), Depacketizer::new());
    let sets = params();
    // Frames 0, 4 and 9 are keyframes; 2 and 6 never arrive.
    for seq in 0..12u64 {
        let key = seq == 0 || seq == 4 || seq == 9;
        let datagrams = framed(
            &mut f,
            Frame {
                data: &[seq as u8],
                params: if seq == 0 { &sets } else { &[] },
                keyframe: key,
                pts_micros: seq,
            },
        );
        if seq == 2 || seq == 6 {
            continue;
        }
        for dg in &datagrams {
            let (header, body) = Header::parse(dg).expect("parses");
            d.push(header, body);
        }
    }
    d.flush();
    let mut numbers = Vec::new();
    for (turn, result) in drain(&mut d).into_iter().enumerate() {
        match result {
            Received::Frame { seq, .. } => {
                assert_eq!(seq, turn as u64, "a frame carries the number of its turn");
                numbers.push(seq);
            }
            other => assert_eq!(other, Received::NeedKeyframe),
        }
    }
    // Nothing between a number given up and the keyframe after it.
    assert_eq!(numbers, vec![0, 1, 4, 5, 9, 10, 11]);
    assert_eq!((d.resync_count(), d.resyncs), (2, 2));
    assert_eq!((d.discarded_count(), d.discarded), (5, 5));
    assert_eq!(d.poll(), Received::Pending);
}

#[test]
fn a_flush_takes_one_poll_for_each_number() {
    let (mut f, mut d) = (Framer::new(), Depacketizer::new());
    let sets = params();
    for seq in 0..8u64 {
        let datagrams = framed(
            &mut f,
            Frame {
                data: &[seq as u8],
                params: &sets,
                keyframe: seq == 0 || seq == 5,
                pts_micros: seq,
            },
        );
        // Only 0, 3, 5 and 7 arrive.
        if [0, 3, 5, 7].contains(&seq) {
            for dg in &datagrams {
                let (header, body) = Header::parse(dg).expect("parses");
                d.push(header, body);
            }
        }
    }
    d.flush();
    for number in 0..=7u64 {
        let before = d.resync_count();
        let got = d.poll();
        let missing = ![0, 3, 5, 7].contains(&number);
        assert_eq!(d.resync_count() - before, u64::from(missing));
        match got {
            Received::Frame { seq, data, .. } => {
                assert!(number == 0 || number == 5);
                assert_eq!((seq, data), (number, vec![number as u8]));
            }
            other => assert_eq!(other, Received::NeedKeyframe),
        }
    }
    for _ in 0..3 {
        assert_eq!(d.poll(), Received::Pending);
    }
    assert_eq!(d.resync_count(), 4);
}

#[test]
fn copies_of_a_frame_are_released_once() {
    let (mut f, mut d) = (Framer::new(), Depacketizer::new());
    f.set_parity(2);
    let sets = params();
    let datagrams = framed(
        &mut f,
        Frame {
            data: &[3u8; 2 * 1253],
            params: &sets,
            keyframe: true,
            pts_micros: 9,
        },
    );
    let mut released = 0;
    for dg in datagrams.iter().chain(&datagrams) {
        let (header, body) = Header::parse(dg).expect("parses");
        d.push(header, body);
        released += drain(&mut d).len();
    }
    assert_eq!((released, d.repaired()), (1, 0));
}
