use pair::congestion::{Controller, Feedback, Level};
use pair::packet::{control, control_datagram, control_feedback, Header, Kind, SampleRate};
use pair::packetize::{AudioPacketizer, SAMPLES_PER_PACKET};
use pair::receive::{
    adjust, av_skew, drain_ready, due, next_ready, round_trip, Arrival, Output, Receiver,
    PING_INTERVAL_MICROS, REQUEST_INTERVAL_MICROS,
};
use pair::send::pack_audio;
use pair::video::{Depacketizer, Frame, Framer, Received};

fn framed(f: &mut Framer, keyframe: bool, pts_micros: u64) -> Vec<Vec<u8>> {
    let mut out = Vec::new();
    f.send(
        Frame {
            data: &[1, 2, 3],
            params: &[vec![9]],
            keyframe,
            pts_micros,
        },
        &mut out,
    );
    out
}

fn deliver(r: &mut Receiver, datagrams: &[Vec<u8>], now: u64) -> Vec<Output> {
    let mut done = Vec::new();
    for dg in datagrams {
        let (header, body) = Header::parse(dg).expect("parses");
        assert!(r.has_headroom());
        done.extend(r.on_video(header, body, now));
    }
    done
}

#[test]
fn a_keyframe_is_shown() {
    let (mut f, mut r) = (Framer::new(), Receiver::new());
    assert_eq!(
        deliver(&mut r, &framed(&mut f, true, 7), 0),
        vec![Output::Show {
            params: Some(vec![vec![9]]),
            data: vec![1, 2, 3],
            pts_micros: 7
        }]
    );
}

#[test]
fn keyframe_requests_are_spaced() {
    let (mut f, mut r) = (Framer::new(), Receiver::new());
    let start = 1_000_000;
    assert_eq!(
        deliver(&mut r, &framed(&mut f, false, 0), start),
        vec![Output::OutOfSync { request: true }]
    );
    assert_eq!(
        deliver(
            &mut r,
            &framed(&mut f, false, 1),
            start + REQUEST_INTERVAL_MICROS - 1
        ),
        vec![Output::OutOfSync { request: false }]
    );
    assert_eq!(
        deliver(
            &mut r,
            &framed(&mut f, false, 2),
            start + REQUEST_INTERVAL_MICROS
        ),
        vec![Output::OutOfSync { request: true }]
    );
}

#[test]
fn one_arrival_can_release_several_frames() {
    let (mut f, mut r) = (Framer::new(), Receiver::new());
    deliver(&mut r, &framed(&mut f, true, 0), 0);
    let missing = framed(&mut f, false, 1);
    let next = framed(&mut f, false, 2);
    assert!(deliver(&mut r, &next, 0).is_empty());
    let stamps: Vec<u64> = deliver(&mut r, &missing, 0)
        .iter()
        .map(|o| match o {
            Output::Show { pts_micros, .. } => *pts_micros,
            Output::OutOfSync { .. } => panic!("in sync"),
        })
        .collect();
    assert_eq!(stamps, vec![1, 2]);
    let loss = r.probe(0).expect("due").loss.expect("three turns came");
    assert_eq!((loss.completed, loss.expected), (3, 3));
    let probe = r.probe(PING_INTERVAL_MICROS).expect("due");
    assert_eq!(probe.loss, None, "the window is reset");
}

#[test]
fn the_link_is_probed_twice_a_second() {
    let mut r = Receiver::new();
    let probe = r.probe(10).expect("due");
    assert_eq!(probe.ping, control_datagram(control::PING, 10));
    assert_eq!(probe.loss, None);
    assert!(r.probe(10).is_none());
    assert!(r.probe(10 + PING_INTERVAL_MICROS - 1).is_none());
    assert!(r.probe(10 + PING_INTERVAL_MICROS).is_some());
    assert!(r.probe(5).is_none(), "a clock that went back is not due");
}

#[test]
fn datagrams_are_told_apart() {
    let mut r = Receiver::new();
    assert!(r.can_take(&[1, 2, 3]));
    assert_eq!(r.on_datagram(&[1, 2, 3], 0), Arrival::Unreadable);

    let mut audio = Vec::new();
    let mut packetizer = AudioPacketizer::new(true, SampleRate::Hz48000);
    pack_audio(
        &mut packetizer,
        &[7; SAMPLES_PER_PACKET],
        5,
        &mut audio,
    );
    match r.on_datagram(&audio[0], 0) {
        Arrival::Audio { header, body } => {
            assert_eq!(header.kind, Kind::Audio);
            assert_eq!(header.pts_micros, 5);
            assert_eq!(body.len(), SAMPLES_PER_PACKET * 4);
        }
        other => panic!("{other:?}"),
    }

    let mut video = framed(&mut Framer::new(), true, 7);
    assert!(r.can_take(&video[0]));
    assert_eq!(
        r.on_datagram(&video[0], 0),
        Arrival::Video {
            done: vec![Output::Show {
                params: Some(vec![vec![9]]),
                data: vec![1, 2, 3],
                pts_micros: 7
            }]
        }
    );

    // A frame number at the very end leaves no room to count on.
    video[0][6..14].copy_from_slice(&[0xff; 8]);
    assert!(!r.can_take(&video[0]));

    assert_eq!(
        r.on_datagram(&control_datagram(control::PONG, 100), 350),
        Arrival::RoundTrip { micros: 250 }
    );
    assert_eq!(
        r.on_datagram(&control_datagram(control::PONG, 400), 350),
        Arrival::Ignored
    );
    assert_eq!(
        r.on_datagram(&control_datagram(control::PING, 100), 350),
        Arrival::Ignored
    );
}

#[test]
fn a_report_is_turned_into_a_request() {
    let mut controller = Controller::new(40_000_000, 8_000_000);
    let bad = Feedback {
        loss: Level::High,
        queueing: Level::Low,
        losing: true,
    };
    let datagram = adjust(&mut controller, bad);
    assert_eq!(controller.target_bps(), 34_000_000);
    let (header, body) = Header::parse(&datagram).expect("parses");
    assert_eq!(header.kind, Kind::Control);
    assert!(header.has(control::BITRATE));
    assert_eq!(control_feedback(body), Some((34_000_000, 2)));
}

#[test]
fn the_picture_may_lead_or_trail_the_sound() {
    assert_eq!(av_skew(1_500, 1_000), 500);
    assert_eq!(av_skew(1_000, 1_500), -500);
}

#[test]
fn a_reply_shows_the_round_trip() {
    let reply = control_datagram(control::PONG, 1_000);
    let (header, _) = Header::parse(&reply).expect("parses");
    assert_eq!(round_trip(&header, 81_000), Some(80_000));
    assert_eq!(round_trip(&header, 1_000), Some(0));
    assert_eq!(round_trip(&header, 999), None, "from the future");
    let probe = control_datagram(control::PING, 1_000);
    let (header, _) = Header::parse(&probe).expect("parses");
    assert_eq!(round_trip(&header, 81_000), None, "not a reply");
}

#[test]
fn an_interval_is_due_at_its_end() {
    assert!(due(None, 0, 9));
    assert!(!due(Some(1), 9, 9));
    assert!(due(Some(1), 10, 9));
    assert!(!due(Some(10), 1, 9));
}

#[test]
fn draining_empties_what_is_in_order() {
    let (mut f, mut d) = (Framer::new(), Depacketizer::new());
    for pts in 0..3 {
        for dg in framed(&mut f, pts == 0, pts) {
            let (header, body) = Header::parse(&dg).expect("parses");
            d.push(header, body);
        }
    }
    assert!(matches!(
        next_ready(&mut d),
        Some(Received::Frame { seq: 0, .. })
    ));
    assert_eq!(drain_ready(&mut d).len(), 2);
    assert_eq!(next_ready(&mut d), None);
    assert!(drain_ready(&mut d).is_empty());
}
