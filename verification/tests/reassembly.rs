use pair::fec;
use pair::packet::{flags, Header};
use pair::reassembly::{Frame, Reassembler, STALE_DISTANCE};
use pair::video::{Frame as VideoFrame, Framer};

/// The largest payload a protected fragment carries, which is what the framer
/// chunks to.
const MAX_PAYLOAD: usize = fec::BLOCK;

/// Builds datagrams exactly as the sender does, parity too.
fn datagrams(seq: u64, payload: &[u8]) -> Vec<Vec<u8>> {
    let mut framer = Framer::new();
    let mut out = Vec::new();
    // Framer numbers frames itself, so skip forward to the sequence wanted.
    for _ in 0..seq {
        let mut ignored = Vec::new();
        framer.send(
            VideoFrame {
                data: &[],
                params: &[],
                keyframe: false,
                pts_micros: 0,
            },
            &mut ignored,
        );
    }
    framer.send(
        VideoFrame {
            data: payload,
            params: &[],
            keyframe: true,
            pts_micros: seq,
        },
        &mut out,
    );
    out
}

/// Only the picture-carrying datagrams, for tests about plain reassembly.
fn data_only(seq: u64, payload: &[u8]) -> Vec<Vec<u8>> {
    datagrams(seq, payload)
        .into_iter()
        .filter(|dg| {
            let (h, _) = Header::parse(dg).expect("parses");
            !h.has(flags::PARITY)
        })
        .collect()
}

fn feed(r: &mut Reassembler, dg: &[u8]) -> Option<Frame> {
    let (h, body) = Header::parse(dg).expect("parses");
    r.push(h, body)
}

#[test]
fn reassembles_in_order() {
    let payload: Vec<u8> = (0..MAX_PAYLOAD * 3 + 17).map(|i| (i % 251) as u8).collect();
    let dgs = data_only(1, &payload);
    let mut r = Reassembler::new();
    let mut done = None;
    for dg in &dgs {
        done = feed(&mut r, dg).or(done);
    }
    assert_eq!(done.expect("completed").data, payload);
}

#[test]
fn reassembles_fragments_arriving_out_of_order() {
    let payload: Vec<u8> = (0..MAX_PAYLOAD * 4).map(|i| (i % 251) as u8).collect();
    let mut dgs = data_only(7, &payload);
    dgs.reverse();
    let mut r = Reassembler::new();
    let mut completed = Vec::new();
    for dg in dgs.iter() {
        if let Some(f) = feed(&mut r, dg) {
            completed.push(f);
        }
    }
    assert_eq!(completed.len(), 1);
    assert_eq!(
        completed[0].data, payload,
        "order of arrival must not matter"
    );
}

#[test]
fn a_frame_completing_out_of_order_is_still_reassembled() {
    let mut r = Reassembler::new();
    // Frame 5 arrives first. Frame 4 must still be rebuilt when it lands,
    // because putting frames back in order is the depacketizer's job and it
    // cannot order what it never receives.
    assert!(feed(&mut r, &data_only(5, b"newer")[0]).is_some());
    assert!(feed(&mut r, &data_only(4, b"older")[0]).is_some());
    assert!(feed(&mut r, &data_only(6, b"newest")[0]).is_some());
}

#[test]
fn incomplete_frame_never_emits() {
    let payload = vec![0u8; MAX_PAYLOAD * 3];
    let dgs = data_only(1, &payload);
    let mut r = Reassembler::new();
    for dg in &dgs[..dgs.len() - 1] {
        assert!(feed(&mut r, dg).is_none());
    }
}

#[test]
fn stale_partials_are_evicted() {
    let big = vec![0u8; MAX_PAYLOAD * 3];
    let mut r = Reassembler::new();
    // Abandon frame 1 after a single fragment.
    feed(&mut r, &data_only(1, &big)[0]);
    // Push enough newer complete frames to move the cutoff past it.
    for seq in 2..20 {
        let dgs = data_only(seq, b"small");
        assert!(feed(&mut r, &dgs[0]).is_some());
    }
    assert!(r.waiting() == 0, "stale partial should be gone");
    assert!(r.dropped > 0, "eviction should be counted");
    // A late fragment for the abandoned frame must not allocate anew.
    feed(&mut r, &data_only(1, &big)[1]);
    assert!(
        r.waiting() == 0,
        "late fragment must not resurrect a stale frame"
    );
}

#[test]
fn a_frame_is_held_for_exactly_the_stale_distance() {
    let big = vec![0u8; MAX_PAYLOAD * 3];
    let mut r = Reassembler::new();
    feed(&mut r, &data_only(1, &big)[0]);
    feed(&mut r, &data_only(1 + STALE_DISTANCE, b"x")[0]);
    assert_eq!(r.waiting(), 1, "still inside the window");
    assert_eq!(r.dropped, 0);
    feed(&mut r, &data_only(2 + STALE_DISTANCE, b"x")[0]);
    assert_eq!(r.waiting(), 0);
    assert_eq!(r.dropped, 1);
}

#[test]
fn a_lost_fragment_is_rebuilt_from_parity() {
    let payload: Vec<u8> = (0..MAX_PAYLOAD * 3).map(|i| (i % 251) as u8).collect();
    let dgs = datagrams(0, &payload);
    let mut r = Reassembler::new();
    let mut completed = Vec::new();
    for dg in dgs.iter().skip(1) {
        completed.extend(feed(&mut r, dg));
    }
    assert_eq!(completed.len(), 1);
    assert_eq!(completed[0].data, payload);
    assert_eq!(completed[0].header.seq, 0);
    assert!(completed[0].header.has(flags::KEYFRAME));
    assert_eq!(r.repaired_count(), 1);
    assert_eq!(r.waiting(), 0);
}

#[test]
fn a_duplicate_fragment_changes_nothing() {
    let payload: Vec<u8> = (0..MAX_PAYLOAD * 2).map(|i| (i % 251) as u8).collect();
    let dgs = data_only(0, &payload);
    let mut r = Reassembler::new();
    assert!(feed(&mut r, &dgs[0]).is_none());
    assert!(feed(&mut r, &dgs[0]).is_none());
    assert_eq!(r.waiting(), 1);
    let mut done = None;
    for dg in &dgs[1..] {
        done = feed(&mut r, dg).or(done);
    }
    assert_eq!(done.expect("completed").data, payload);
}

#[test]
fn a_malformed_fragment_is_ignored() {
    let mut r = Reassembler::new();
    let dgs = data_only(0, &[1, 2, 3]);
    let (header, _) = Header::parse(&dgs[0]).expect("parses");
    // Too short for its length, and claiming more than it carries.
    assert!(r.push(header, &[3]).is_none());
    assert!(r.push(header, &[200, 1, 7]).is_none());
    // A parity datagram without its level and block.
    let mut parity = header;
    parity.flags = flags::PARITY;
    assert!(r.push(parity, &[]).is_none());
    assert!(feed(&mut r, &dgs[0]).is_some(), "the sound one still counts");
}

#[test]
fn frames_do_not_disturb_each_other() {
    let first: Vec<u8> = (0..MAX_PAYLOAD * 2).map(|i| (i % 251) as u8).collect();
    let second: Vec<u8> = (0..MAX_PAYLOAD * 2).map(|i| (i % 13) as u8).collect();
    let (a, b) = (data_only(0, &first), data_only(1, &second));
    assert_eq!(a.len(), b.len());
    let mut r = Reassembler::new();
    let mut completed = Vec::new();
    for (x, y) in a.iter().zip(b.iter()) {
        completed.extend(feed(&mut r, x));
        completed.extend(feed(&mut r, y));
    }
    assert_eq!(completed.len(), 2);
    assert_eq!(completed[0].data, first);
    assert_eq!(completed[1].data, second);
    assert!(r.has_headroom());
}

#[test]
fn parity_behind_a_completed_frame_counts_nothing() {
    let mut framer = Framer::new();
    let mut sent = Vec::new();
    let mut out = Vec::new();
    framer.send(
        VideoFrame {
            data: &[1u8; 2 * MAX_PAYLOAD],
            params: &[],
            keyframe: true,
            pts_micros: 0,
        },
        &mut out,
    );
    assert_eq!(out.len(), 3, "two fragments and their parity");
    sent.append(&mut out);
    for _ in 1..=9 {
        framer.send(
            VideoFrame {
                data: &[],
                params: &[],
                keyframe: false,
                pts_micros: 0,
            },
            &mut out,
        );
        sent.append(&mut out);
    }
    let mut r = Reassembler::new();
    let mut frames = Vec::new();
    for dg in &sent {
        frames.extend(feed(&mut r, dg).map(|f| f.header.seq));
    }
    assert_eq!(frames, (0..=9).collect::<Vec<u64>>());
    assert_eq!(r.waiting(), 0);
    assert_eq!(r.dropped, 0);
    assert_eq!(r.dropped_count(), 0);
    assert_eq!(r.repaired_count(), 0);
}

#[test]
fn a_whole_copy_comes_out_again() {
    let payload = vec![5u8; MAX_PAYLOAD + 1];
    let dgs = data_only(3, &payload);
    let mut r = Reassembler::new();
    for _ in 0..3 {
        assert!(feed(&mut r, &dgs[1]).is_none());
        assert_eq!(feed(&mut r, &dgs[0]).expect("completed").data, payload);
        assert_eq!(r.waiting(), 0);
    }
    // Part of a copy is given up in the end, which is no loss.
    assert!(feed(&mut r, &dgs[0]).is_none());
    assert_eq!(r.waiting(), 1);
    for seq in 4..=3 + STALE_DISTANCE + 1 {
        let next = data_only(seq, &[1]);
        assert!(feed(&mut r, &next[0]).is_some());
    }
    assert_eq!((r.waiting(), r.dropped_count()), (0, 0));
    // Nor does it come back once it is too old.
    for dg in &dgs {
        assert!(feed(&mut r, dg).is_none());
    }
    assert_eq!(r.waiting(), 0);
}

#[test]
fn both_parity_blocks_of_a_completed_frame_give_a_copy_that_counts_nothing() {
    let payload = vec![6u8; 2 * MAX_PAYLOAD];
    let mut framer = Framer::new();
    framer.set_parity(2);
    let mut dgs = Vec::new();
    framer.send(
        VideoFrame {
            data: &payload,
            params: &[],
            keyframe: true,
            pts_micros: 0,
        },
        &mut dgs,
    );
    let mut r = Reassembler::new();
    let came: Vec<bool> = dgs.iter().map(|dg| feed(&mut r, dg).is_some()).collect();
    assert_eq!(came, vec![false, true, false, true]);
    assert_eq!((r.repaired_count(), r.dropped_count()), (0, 0));
}

#[test]
fn a_number_used_again_with_a_new_shape_is_counted() {
    let mut r = Reassembler::new();
    for dg in data_only(0, &[1u8; 2 * MAX_PAYLOAD]) {
        feed(&mut r, &dg);
    }
    // Three fragments now, of which one is lost and rebuilt.
    let again = datagrams(0, &[2u8; 3 * MAX_PAYLOAD]);
    assert!(feed(&mut r, &again[0]).is_none());
    assert!(feed(&mut r, &again[1]).is_none());
    assert_eq!(
        feed(&mut r, &again[3]).expect("rebuilt").data,
        vec![2u8; 3 * MAX_PAYLOAD]
    );
    assert_eq!(r.repaired_count(), 1);
}

#[test]
fn only_the_last_fragment_completes_a_frame() {
    let payload: Vec<u8> = (0..MAX_PAYLOAD * 5 + 3).map(|i| (i % 241) as u8).collect();
    let dgs = data_only(2, &payload);
    assert_eq!(dgs.len(), 6);
    // Repeats on the way do not count.
    let order = [4, 0, 4, 5, 2, 0, 3];
    let mut r = Reassembler::new();
    for i in order {
        assert!(feed(&mut r, &dgs[i]).is_none());
    }
    let frame = feed(&mut r, &dgs[1]).expect("the last one lacking");
    assert_eq!(frame.data, payload);
    assert_eq!((frame.header.seq, frame.header.pts_micros), (2, 2));
    // Any one withheld and nothing comes.
    for gone in 0..dgs.len() {
        let mut r = Reassembler::new();
        for (i, dg) in dgs.iter().enumerate() {
            assert!(i == gone || feed(&mut r, dg).is_none());
        }
        assert_eq!(r.waiting(), 1);
    }
}

#[test]
fn a_frame_comes_out_just_when_parity_covers_what_is_missing() {
    // Two groups: ten fragments, then four.
    let payload: Vec<u8> = (0..MAX_PAYLOAD * 13 + 9).map(|i| (i % 239) as u8).collect();
    let mut framer = Framer::new();
    framer.set_parity(2);
    let mut dgs = Vec::new();
    framer.send(
        VideoFrame {
            data: &payload,
            params: &[],
            keyframe: true,
            pts_micros: 0,
        },
        &mut dgs,
    );
    assert_eq!(dgs.len(), 14 + 4);
    let survives = |gone: &[usize]| {
        let mut r = Reassembler::new();
        let mut done = None;
        for (i, dg) in dgs.iter().enumerate() {
            if !gone.contains(&i) {
                done = feed(&mut r, dg).or(done);
            }
        }
        done.is_some_and(|frame| frame.data == payload)
    };
    // Fragments 0 to 9 with parity at 10 and 11, 10 to 13 with parity at 16 and 17.
    assert!(survives(&[]));
    assert!(survives(&[0, 9, 12, 15]), "two from each group");
    assert!(survives(&[3, 10, 17]), "one missing beside one parity");
    assert!(!survives(&[3, 4, 10]), "two missing beside one parity");
    assert!(!survives(&[3, 10, 11]), "none left to repair with");
    assert!(!survives(&[12, 13, 14]), "three are too many");
    assert!(survives(&[10, 11, 16, 17]), "parity alone is not missed");
}

#[test]
fn a_given_up_frame_is_counted() {
    let mut r = Reassembler::new();
    let dgs = data_only(0, &[7u8; 2 * MAX_PAYLOAD]);
    assert!(feed(&mut r, &dgs[0]).is_none());
    let next = data_only(STALE_DISTANCE + 1, &[1]);
    assert!(feed(&mut r, &next[0]).is_some());
    assert_eq!((r.dropped_count(), r.dropped), (1, 1));
}
