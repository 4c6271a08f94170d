use pair::packet::{
    control, control_datagram, control_feedback, control_feedback_datagram, flags, fragment,
    read_params, write_params, Header, Kind, SampleRate, FEEDBACK_LEN, HEADER_LEN, MAX_PAYLOAD, MTU,
    VERSION,
};

fn header(kind: Kind, seq: u64) -> Header {
    Header {
        kind,
        fragment_index: 0,
        fragment_count: 1,
        seq,
        pts_micros: 42,
        flags: 0,
        rate: None,
    }
}

#[test]
fn header_roundtrips() {
    let h = Header {
        kind: Kind::Video,
        fragment_index: 3,
        fragment_count: 9,
        seq: u64::MAX / 3,
        pts_micros: 1234567,
        flags: flags::KEYFRAME | flags::HAS_PARAMS,
        rate: None,
    };
    let mut buf = [0u8; HEADER_LEN];
    h.write(&mut buf);
    let (parsed, rest) = Header::parse(&buf).expect("parses");
    assert_eq!(parsed, h);
    assert!(rest.is_empty());
}

#[test]
fn rejects_bad_headers() {
    let mut buf = [0u8; HEADER_LEN];
    header(Kind::Video, 0).write(&mut buf);
    assert!(
        Header::parse(&buf[..HEADER_LEN - 1]).is_none(),
        "short buffer"
    );

    let mut wrong_version = buf;
    wrong_version[0] = VERSION + 1;
    assert!(Header::parse(&wrong_version).is_none(), "version mismatch");

    let mut bad_kind = buf;
    bad_kind[1] = 7;
    assert!(Header::parse(&bad_kind).is_none(), "unknown kind");

    // fragment_index must be inside fragment_count
    let mut oob = buf;
    oob[2..4].copy_from_slice(&5u16.to_le_bytes());
    oob[4..6].copy_from_slice(&2u16.to_le_bytes());
    assert!(Header::parse(&oob).is_none(), "index past count");

    let mut zero_count = buf;
    zero_count[4..6].copy_from_slice(&0u16.to_le_bytes());
    assert!(Header::parse(&zero_count).is_none(), "zero fragment count");
}

#[test]
fn fragments_cover_payload_exactly() {
    for len in [
        0usize,
        1,
        MAX_PAYLOAD - 1,
        MAX_PAYLOAD,
        MAX_PAYLOAD + 1,
        100_000,
    ] {
        let payload: Vec<u8> = (0..len).map(|i| (i % 251) as u8).collect();
        let mut seen = Vec::new();
        let mut datagrams = Vec::new();
        fragment(header(Kind::Video, 1), &payload, &mut datagrams);
        for dg in &datagrams {
            assert!(dg.len() <= MTU, "datagram exceeds MTU");
            let (h, body) = Header::parse(dg).expect("parses");
            seen.push((h.fragment_index, h.fragment_count, body.to_vec()));
        }
        let count = seen[0].1;
        assert_eq!(
            seen.len(),
            count as usize,
            "emitted fragment count matches header"
        );
        for (i, entry) in seen.iter().enumerate() {
            assert_eq!(entry.0 as usize, i, "fragments are in order");
        }
        let rejoined: Vec<u8> = seen.iter().flat_map(|s| s.2.clone()).collect();
        assert_eq!(rejoined, payload, "len {len} roundtrips");
    }
}

#[test]
fn sample_rate_survives_the_header() {
    for rate in [
        SampleRate::Hz44100,
        SampleRate::Hz48000,
        SampleRate::Hz88200,
        SampleRate::Hz96000,
    ] {
        let mut h = header(Kind::Audio, 3);
        h.rate = Some(rate);
        let mut buf = [0u8; HEADER_LEN];
        h.write(&mut buf);
        let (parsed, _) = Header::parse(&buf).expect("parses");
        assert_eq!(parsed.rate, Some(rate));
        assert_eq!(
            rate.hz(),
            SampleRate::from_hz(rate.hz()).expect("known").hz()
        );
    }
}

#[test]
fn an_unknown_rate_code_reads_as_absent_rather_than_wrong() {
    let mut buf = [0u8; HEADER_LEN];
    header(Kind::Audio, 1).write(&mut buf);
    buf[23] = 200;
    let (parsed, _) = Header::parse(&buf).expect("parses");
    assert_eq!(
        parsed.rate, None,
        "a rate we do not know must not be guessed"
    );
    assert!(SampleRate::from_hz(37_000).is_none());
}

#[test]
fn control_datagrams_roundtrip() {
    for flag in [control::KEYFRAME_REQUEST, control::PING, control::PONG] {
        let stamp = 1234567890u64;
        let datagram = control_datagram(flag, stamp);
        let (header, body) = Header::parse(&datagram).expect("parses");
        assert_eq!(header.kind, Kind::Control);
        assert_eq!(header.flags, flag);
        assert_eq!(
            header.pts_micros, stamp,
            "the stamp must survive for RTT maths"
        );
        assert!(body.is_empty());
    }
}

#[test]
fn control_feedback_roundtrips() {
    for (bitrate, parity) in [(0u32, 0u32), (5_000_000, 1), (u32::MAX, 2)] {
        let datagram = control_feedback_datagram(control::BITRATE, bitrate, parity);
        let (header, body) = Header::parse(&datagram).expect("parses");
        assert_eq!(header.kind, Kind::Control);
        assert!(header.has(control::BITRATE));
        assert_eq!(control_feedback(body), Some((bitrate, parity)));
    }
    // A truncated body must be refused rather than read as garbage.
    assert_eq!(control_feedback(&[1, 2, 3, 4, 5]), None);
    assert_eq!(control_feedback(&[]), None);
}

#[test]
fn control_flags_do_not_collide_with_media_flags() {
    let media = flags::KEYFRAME | flags::HAS_PARAMS | flags::HAS_FEC | flags::PARITY;
    let ctrl = control::KEYFRAME_REQUEST | control::PING | control::PONG | control::BITRATE;
    assert_eq!(
        media & ctrl,
        0,
        "a stray flag must never read as the other kind"
    );
}

#[test]
fn params_roundtrip() {
    let sets = vec![vec![1u8, 2, 3], vec![9u8; 300], vec![]];
    let mut buf = Vec::new();
    write_params(&sets, &mut buf);
    buf.extend_from_slice(b"framedata");
    let (parsed, rest) = read_params(&buf).expect("parses");
    assert_eq!(parsed, sets);
    assert_eq!(rest, b"framedata");
}

#[test]
fn truncated_params_rejected() {
    let sets = vec![vec![1u8, 2, 3], vec![7u8; 50]];
    let mut buf = Vec::new();
    write_params(&sets, &mut buf);
    for cut in 1..buf.len() {
        // Truncation must be detected, never panic or over-read.
        assert!(read_params(&buf[..cut]).is_none());
    }
    assert!(read_params(&buf[..buf.len() - 1]).is_none());
}

#[test]
fn the_header_has_its_documented_layout() {
    let h = Header {
        kind: Kind::Audio,
        fragment_index: 0x0102,
        fragment_count: 0x0304,
        seq: 0x0506_0708_090a_0b0c,
        pts_micros: 0x0d0e_0f10_1112_1314,
        flags: flags::HAS_FEC,
        rate: Some(SampleRate::Hz48000),
    };
    let mut buf = [0u8; HEADER_LEN];
    h.write(&mut buf);
    assert_eq!(
        buf,
        [
            VERSION,
            Kind::Audio.code(),
            0x02,
            0x01,
            0x04,
            0x03,
            0x0c,
            0x0b,
            0x0a,
            0x09,
            0x08,
            0x07,
            0x06,
            0x05,
            0x14,
            0x13,
            0x12,
            0x11,
            0x10,
            0x0f,
            0x0e,
            0x0d,
            flags::HAS_FEC,
            SampleRate::Hz48000.code(),
        ]
    );
}

#[test]
fn parsing_hands_back_what_follows_the_header() {
    let mut buf = [0u8; HEADER_LEN].to_vec();
    let mut head = [0u8; HEADER_LEN];
    header(Kind::Control, 5).write(&mut head);
    buf[..].copy_from_slice(&head);
    buf.extend_from_slice(b"tail");
    let (parsed, rest) = Header::parse(&buf).expect("parses");
    assert_eq!(parsed, header(Kind::Control, 5));
    assert_eq!(rest, b"tail");
}

#[test]
fn codes_are_their_own_inverses() {
    for kind in [Kind::Video, Kind::Audio, Kind::Control] {
        assert_eq!(Kind::from_u8(kind.code()), Some(kind));
    }
    assert_eq!(Kind::from_u8(3), None);
    for rate in [
        SampleRate::Hz44100,
        SampleRate::Hz48000,
        SampleRate::Hz88200,
        SampleRate::Hz96000,
    ] {
        assert_eq!(SampleRate::from_code(rate.code()), Some(rate));
        assert_eq!(SampleRate::from_hz(rate.hz()), Some(rate));
    }
    assert_eq!(SampleRate::from_code(0), None);
    assert_eq!(SampleRate::Hz44100.hz(), 44_100);
    assert_eq!(SampleRate::Hz96000.hz(), 96_000);
}

#[test]
fn feedback_is_two_little_endian_words_behind_the_header() {
    let datagram = control_feedback_datagram(control::BITRATE, 0x0102_0304, 2);
    assert_eq!(datagram.len(), FEEDBACK_LEN);
    assert_eq!(datagram[HEADER_LEN..], [4, 3, 2, 1, 2, 0, 0, 0]);
    // Trailing bytes are left for later versions.
    assert_eq!(
        control_feedback(&[1, 0, 0, 0, 2, 0, 0, 0, 9]),
        Some((1, 2))
    );
}

#[test]
fn flags_are_tested_one_by_one() {
    let mut h = header(Kind::Video, 0);
    h.flags = flags::KEYFRAME | flags::PARITY;
    assert!(h.has(flags::KEYFRAME));
    assert!(h.has(flags::PARITY));
    assert!(!h.has(flags::HAS_PARAMS));
}

#[test]
fn no_parameter_sets_still_take_a_count() {
    let mut buf = vec![0xaa];
    write_params(&[], &mut buf);
    assert_eq!(buf[0], 0xaa);
    let (sets, rest) = read_params(&buf[1..]).expect("parses");
    assert!(sets.is_empty());
    assert!(rest.is_empty());
    assert!(read_params(&[]).is_none());
}
