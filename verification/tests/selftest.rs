use pair::packet::Header;
use pair::selftest::{
    align, audio_passed, audio_verdict, frame_pts, video_passed, Alignment, AudioVerdict,
    Collected, Recovery, VideoFindings, VideoVerdict,
};
use pair::video::{Depacketizer, Frame, Framer};

fn bits(samples: &[f32]) -> Vec<u32> {
    samples.iter().map(|s| s.to_bits()).collect()
}

#[test]
fn frames_are_stamped_by_the_frame_rate() {
    assert_eq!(frame_pts(0, 60), 0);
    assert_eq!(frame_pts(1, 60), 16_666);
    assert_eq!(frame_pts(60, 60), 1_000_000);
    assert_eq!(frame_pts(2, 0), 2_000_000, "no rate counts as one");
    assert_eq!(frame_pts(2, -5), 2_000_000);
}

#[test]
fn recovery_is_rate_limited() {
    let mut recovery = Recovery::new(60);
    assert!(recovery.next_frame(0), "the first frame is a keyframe");
    assert_eq!(recovery.requests, 0);
    assert!(!recovery.next_frame(1));
    recovery.wanted = true;
    assert!(recovery.next_frame(2));
    assert_eq!(recovery.requests, 1);
    recovery.wanted = true;
    // Four requests a second at most: fifteen frames have to pass.
    let mut passed = 0;
    while !recovery.next_frame(3 + passed) {
        passed += 1;
    }
    assert_eq!(passed, 14);
    assert_eq!(recovery.requests, 2);
    assert!(!recovery.wanted);
}

#[test]
fn what_is_received_is_collected_in_order() {
    let (mut f, mut d) = (Framer::new(), Depacketizer::new());
    let mut collected = Collected::new();
    for (i, keyframe) in [false, true, false].into_iter().enumerate() {
        let mut out = Vec::new();
        f.send(
            Frame {
                data: &[i as u8],
                params: &[vec![i as u8; 2]],
                keyframe,
                pts_micros: 10 * i as u64,
            },
            &mut out,
        );
        for dg in &out {
            let (header, body) = Header::parse(dg).expect("parses");
            d.push(header, body);
        }
        collected.drain(&mut d);
    }
    assert!(collected.wants_keyframe);
    let frames: Vec<(u64, Vec<u8>, u64)> = collected
        .frames
        .iter()
        .map(|f| (f.seq, f.data.clone(), f.pts_micros))
        .collect();
    assert_eq!(frames, vec![(1, vec![1], 10), (2, vec![2], 20)]);
    assert_eq!(
        collected.params,
        Some(vec![vec![1, 1]]),
        "the first sets shown are the ones that count"
    );
}

#[test]
fn a_stream_that_began_late_is_still_aligned() {
    let source = bits(&(0..80).map(|i| i as f32).collect::<Vec<f32>>());
    let whole = align(&source, &source, 10);
    assert_eq!((whole.offset, whole.mismatches, whole.compared), (0, 0, 80));
    let late = align(&source[30..], &source, 10);
    assert_eq!((late.offset, late.mismatches, late.compared), (3, 0, 20));
}

#[test]
fn differing_samples_are_counted_as_numbers() {
    let source = bits(&[0.0, 1.0, 2.0, 3.0, 4.0, 5.0, 6.0, 7.0]);
    let out = bits(&[-0.0, 1.0, f32::NAN, 9.0]);
    let best = align(&out, &source, 1);
    // Zero equals zero of the other sign; nothing equals what is no number.
    assert_eq!((best.offset, best.mismatches, best.compared), (4, 0, 0));
    let best = align(&out, &source, 0);
    assert_eq!((best.offset, best.mismatches, best.compared), (0, 2, 4));
    let nan = bits(&[f32::NAN]);
    assert_eq!(align(&nan, &nan, 0).mismatches, 1);
}

#[test]
fn a_clean_link_must_be_perfect() {
    assert!(audio_passed(0, 0, 0));
    assert!(!audio_passed(0, 1, 5));
    assert!(audio_passed(3, 1, 5), "concealment is legitimate under loss");
    assert!(!audio_passed(3, 1, 0));
    assert!(audio_passed(3, 0, 0));
}

#[test]
fn the_video_must_clear_the_floor() {
    assert!(video_passed(0, 0, 90));
    assert!(!video_passed(0, 1, 90));
    for decoded in [1usize, 9, 10, 11, 90, 95, 1000] {
        for below in 0..=decoded {
            let good_ratio = 1.0 - below as f64 / decoded as f64;
            assert_eq!(video_passed(3, below, decoded), good_ratio >= 0.9);
        }
    }
}

#[test]
fn the_first_thing_wrong_decides_the_video() {
    let good = VideoFindings {
        has_params: true,
        wrong_size: false,
        decoded: 90,
        below_floor: 0,
    };
    assert_eq!(good.verdict(0), VideoVerdict::Passed);
    let poor = VideoFindings {
        below_floor: 9,
        ..good
    };
    assert_eq!(poor.verdict(0), VideoVerdict::BelowFloor);
    assert_eq!(poor.verdict(3), VideoVerdict::Passed);
    let nothing = VideoFindings { decoded: 0, ..good };
    assert_eq!(nothing.verdict(0), VideoVerdict::NothingDecoded);
    assert_eq!(nothing.verdict(3), VideoVerdict::NothingDecoded);
    let other = VideoFindings {
        wrong_size: true,
        ..nothing
    };
    assert_eq!(other.verdict(0), VideoVerdict::WrongSize);
    let silent = VideoFindings {
        has_params: false,
        ..other
    };
    assert_eq!(silent.verdict(3), VideoVerdict::NoParams);
    assert!(!video_passed(0, 0, 0), "no frames are never good enough");
}

#[test]
fn silence_is_no_audio() {
    let best = |mismatches, compared| Alignment {
        offset: 0,
        mismatches,
        compared,
    };
    assert_eq!(audio_verdict(3, best(0, 0), 9), AudioVerdict::NothingArrived);
    assert_eq!(audio_verdict(0, best(0, 96), 0), AudioVerdict::Passed);
    assert_eq!(audio_verdict(0, best(1, 96), 9), AudioVerdict::Differs);
    assert_eq!(audio_verdict(3, best(1, 96), 9), AudioVerdict::Passed);
    assert_eq!(audio_verdict(3, best(1, 96), 0), AudioVerdict::Differs);
}
