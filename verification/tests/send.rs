use pair::fec;
use pair::packet::{
    control, control_datagram, control_feedback_datagram, Header, Kind, SampleRate,
    AUDIO_BLOCK_BYTES, HEADER_LEN,
};
use pair::packetize::{AudioPacketizer, SAMPLES_PER_PACKET};
use pair::send::{
    apply_parity_request, pack_audio, route, serve, EncoderSettings, Route, Served,
};
use pair::tailnet::Address;
use pair::video::{Frame, Framer};

#[test]
fn a_destination_outside_the_tunnel_is_refused() {
    let lan = Address::from_octets(192, 168, 1, 50);
    assert_eq!(route(lan, false), Route::Refused);
    assert_eq!(route(lan, true), Route::InTheClear);
    for inside in [
        Address::from_octets(100, 64, 0, 1),
        Address::from_octets(127, 0, 0, 1),
    ] {
        assert_eq!(route(inside, false), Route::Protected);
        assert_eq!(route(inside, true), Route::Protected);
    }
}

#[test]
fn a_requested_bitrate_is_clamped_and_small_changes_are_ignored() {
    let settings = EncoderSettings {
        bitrate_bps: 40_000_000,
        min_bitrate_bps: 5_000_000,
        congestion_control: true,
    };
    let ask = |requested, current| {
        assert!(settings.can_apply(requested));
        settings.apply_bitrate_request(requested, current)
    };
    assert_eq!(ask(20_000_000, 40_000_000), Some(20_000_000));
    assert_eq!(ask(1_000, 40_000_000), Some(5_000_000), "never below the floor");
    assert_eq!(ask(90_000_000, 20_000_000), Some(40_000_000), "nor above");
    assert_eq!(ask(0, 40_000_000), None, "no request");
    // A twentieth is the smallest change worth making.
    assert_eq!(ask(38_000_000, 40_000_000), Some(38_000_000));
    assert_eq!(ask(38_000_001, 40_000_000), None);
    assert_eq!(ask(40_000_000, 38_200_000), None);
    let fixed = EncoderSettings {
        congestion_control: false,
        ..settings
    };
    assert_eq!(fixed.apply_bitrate_request(20_000_000, 40_000_000), None);
    let wide = EncoderSettings {
        bitrate_bps: 200_000_000,
        ..settings
    };
    assert!(wide.can_apply(90_000_000));
    assert_eq!(
        wide.apply_bitrate_request(90_000_000, 200_000_000),
        Some(90_000_000),
        "however far the change"
    );
    let upside_down = EncoderSettings {
        min_bitrate_bps: 50_000_000,
        ..settings
    };
    assert!(!upside_down.can_apply(20_000_000));
}

#[test]
fn a_request_beyond_every_limit_is_clamped_as_it_stands() {
    let settings = EncoderSettings {
        bitrate_bps: 40_000_000,
        min_bitrate_bps: 8_000_000,
        congestion_control: true,
    };
    assert!(settings.can_apply(3_000_000_000));
    assert_eq!(
        settings.apply_bitrate_request(3_000_000_000, 10_000_000),
        Some(40_000_000)
    );
    assert_eq!(
        settings.apply_bitrate_request(u64::MAX, 10_000_000),
        Some(40_000_000)
    );
    // One that wraps to nothing in 32 bits is still a large request.
    assert_eq!(
        settings.apply_bitrate_request(1 << 32, 10_000_000),
        Some(40_000_000)
    );
}

#[test]
fn the_receiver_chooses_the_repair_strength() {
    let parity = |framer: &mut Framer| {
        let mut out = Vec::new();
        framer.send(
            Frame {
                data: &vec![0; fec::BLOCK * 2],
                params: &[],
                keyframe: false,
                pts_micros: 0,
            },
            &mut out,
        );
        out.len() - 2
    };
    let mut framer = Framer::new();
    assert_eq!(parity(&mut framer), 1);
    apply_parity_request(&mut framer, 2, true);
    assert_eq!(parity(&mut framer), 2);
    apply_parity_request(&mut framer, 1, false);
    assert_eq!(parity(&mut framer), 2, "held fixed");
    apply_parity_request(&mut framer, 0, true);
    assert_eq!(parity(&mut framer), 2, "no request");
    apply_parity_request(&mut framer, 7, true);
    assert_eq!(parity(&mut framer), 2, "capped");
    assert_eq!(framer.upcoming(), 5);
}

#[test]
fn probes_are_echoed_with_their_stamp() {
    let served = serve(&control_datagram(control::PING, 77)).expect("served");
    assert!(!served.keyframe);
    assert_eq!(served.feedback, None);
    let pong = served.pong.expect("answered");
    let (header, rest) = Header::parse(&pong).expect("parses");
    assert_eq!(header.kind, Kind::Control);
    assert!(header.has(control::PONG));
    assert_eq!(header.pts_micros, 77);
    assert!(rest.is_empty());
}

#[test]
fn requests_are_served_by_their_flags() {
    assert_eq!(
        serve(&control_datagram(control::KEYFRAME_REQUEST, 0)),
        Some(Served {
            keyframe: true,
            feedback: None,
            pong: None
        })
    );
    assert_eq!(
        serve(&control_feedback_datagram(control::BITRATE, 8_000_000, 2)),
        Some(Served {
            keyframe: false,
            feedback: Some((8_000_000, 2)),
            pong: None
        })
    );
    let truncated = control_feedback_datagram(control::BITRATE, 8_000_000, 2);
    assert_eq!(
        serve(&truncated[..HEADER_LEN + 7]),
        Some(Served {
            keyframe: false,
            feedback: None,
            pong: None
        })
    );
}

#[test]
fn anything_but_control_is_ignored() {
    assert_eq!(serve(&[]), None);
    let mut framer = Framer::new();
    let mut out = Vec::new();
    framer.send(
        Frame {
            data: &[1],
            params: &[],
            keyframe: true,
            pts_micros: 0,
        },
        &mut out,
    );
    assert_eq!(serve(&out[0]), None);
}

#[test]
fn audio_packets_are_single_datagrams() {
    let mut packetizer = AudioPacketizer::new(true, SampleRate::Hz48000);
    let samples = vec![5u32; SAMPLES_PER_PACKET * 3 + 1];
    let mut out = Vec::new();
    assert!(packetizer.can_take(samples.len(), 10));
    assert_eq!(pack_audio(&mut packetizer, &samples, 10, &mut out), 3);
    assert_eq!(out.len(), 3);
    for (i, dg) in out.iter().enumerate() {
        let (header, body) = Header::parse(dg).expect("parses");
        assert_eq!(header.kind, Kind::Audio);
        assert_eq!(header.seq, i as u64);
        let blocks = if i == 0 { 1 } else { 2 };
        assert_eq!(body.len(), AUDIO_BLOCK_BYTES * blocks);
        assert_eq!(body[..8], [5, 0, 0, 0, 5, 0, 0, 0]);
    }
}

#[test]
fn a_clock_at_its_end_takes_no_more_samples() {
    let packetizer = AudioPacketizer::new(true, SampleRate::Hz48000);
    assert!(packetizer.can_take(SAMPLES_PER_PACKET - 1, u64::MAX));
    assert!(!packetizer.can_take(SAMPLES_PER_PACKET, u64::MAX));
    assert!(packetizer.can_take(SAMPLES_PER_PACKET, u64::MAX - 1333));
}
