use pair::fec::{
    accumulate, accumulate_at, decode_fragment, encode_fragment, recover, recover_group, BLOCK,
    GROUP, LENGTH_PREFIX, LEVEL_PREFIX, MAX_PARITY, PARITY_LEN,
};
use pair::gf::{build_tables, coefficient, gf_div, gf_mul};
use pair::packet::MAX_PAYLOAD;

fn fragment(seed: u8, len: usize) -> Vec<u8> {
    (0..len).map(|i| seed.wrapping_add(i as u8)).collect()
}

/// Builds a group's P and Q parity blocks.
fn parity_for(group: &[Vec<u8>]) -> ([u8; PARITY_LEN], [u8; PARITY_LEN]) {
    let mut p = [0u8; PARITY_LEN];
    let mut q = [0u8; PARITY_LEN];
    for (index, data) in group.iter().enumerate() {
        accumulate_at(&mut p, data, index, 0);
        accumulate_at(&mut q, data, index, 1);
    }
    (p, q)
}

#[test]
fn a_fragment_survives_its_length_prefix() {
    for len in [0usize, 1, 500, BLOCK] {
        let data = fragment(7, len);
        let mut encoded = Vec::new();
        encode_fragment(&data, &mut encoded);
        assert!(encoded.len() <= MAX_PAYLOAD, "must fit one datagram");
        assert_eq!(decode_fragment(&encoded), Some(data.as_slice()));
    }
}

#[test]
fn malformed_fragments_are_refused() {
    assert_eq!(decode_fragment(&[]), None);
    assert_eq!(decode_fragment(&[1]), None);
    // Claims 400 bytes but carries none.
    let mut lying = 400u16.to_le_bytes().to_vec();
    lying.extend_from_slice(&[0u8; 10]);
    assert_eq!(decode_fragment(&lying), None);
}

#[test]
fn every_pair_of_losses_in_a_group_is_rebuilt_exactly() {
    // Mixed widths, with a short final fragment, since a real frame rarely
    // divides evenly.
    let group: Vec<Vec<u8>> = (0..GROUP)
        .map(|i| {
            fragment(
                (i as u8).wrapping_mul(31),
                if i == GROUP - 1 { 77 } else { BLOCK },
            )
        })
        .collect();
    let (p, q) = parity_for(&group);

    // Exhaustive: every pair of positions, which is the whole space this
    // scheme claims to cover.
    for first in 0..GROUP {
        for second in (first + 1)..GROUP {
            let mut fragments: Vec<Option<Vec<u8>>> = group.iter().cloned().map(Some).collect();
            fragments[first] = None;
            fragments[second] = None;

            let rebuilt = recover_group(&mut fragments, Some(&p), Some(&q));
            assert_eq!(
                rebuilt, 2,
                "losing {first} and {second} must be recoverable"
            );
            assert_eq!(
                fragments[first].as_deref(),
                Some(group[first].as_slice()),
                "fragment {first} must come back byte for byte"
            );
            assert_eq!(fragments[second].as_deref(), Some(group[second].as_slice()));
        }
    }
}

#[test]
fn a_single_loss_is_rebuilt_from_either_parity_block_alone() {
    let group: Vec<Vec<u8>> = (0..GROUP)
        .map(|i| fragment((i as u8).wrapping_mul(7), BLOCK))
        .collect();
    let (p, q) = parity_for(&group);

    for missing in 0..GROUP {
        // P survived, Q did not.
        let mut only_p: Vec<Option<Vec<u8>>> = group.iter().cloned().map(Some).collect();
        only_p[missing] = None;
        assert_eq!(recover_group(&mut only_p, Some(&p), None), 1);
        assert_eq!(only_p[missing].as_deref(), Some(group[missing].as_slice()));

        // Q survived, P did not. The weighted equation has to work alone.
        let mut only_q: Vec<Option<Vec<u8>>> = group.iter().cloned().map(Some).collect();
        only_q[missing] = None;
        assert_eq!(recover_group(&mut only_q, None, Some(&q)), 1);
        assert_eq!(
            only_q[missing].as_deref(),
            Some(group[missing].as_slice()),
            "the weighted parity must rebuild position {missing} on its own"
        );
    }
}

#[test]
fn three_losses_are_refused_rather_than_guessed() {
    let group: Vec<Vec<u8>> = (0..GROUP).map(|i| fragment(i as u8, BLOCK)).collect();
    let (p, q) = parity_for(&group);
    let mut fragments: Vec<Option<Vec<u8>>> = group.iter().cloned().map(Some).collect();
    for gap in [2, 5, 8] {
        fragments[gap] = None;
    }
    assert_eq!(
        recover_group(&mut fragments, Some(&p), Some(&q)),
        0,
        "two parity blocks cannot describe three unknowns"
    );
    assert!(
        fragments[2].is_none(),
        "nothing plausible-looking may be invented"
    );
}

#[test]
fn two_losses_with_only_one_parity_block_are_refused() {
    let group: Vec<Vec<u8>> = (0..GROUP).map(|i| fragment(i as u8, BLOCK)).collect();
    let (p, _) = parity_for(&group);
    let mut fragments: Vec<Option<Vec<u8>>> = group.iter().cloned().map(Some).collect();
    fragments[1] = None;
    fragments[4] = None;
    assert_eq!(recover_group(&mut fragments, Some(&p), None), 0);
}

#[test]
fn the_field_arithmetic_is_self_consistent() {
    let tables = build_tables();
    // Every non-zero value must divide back to itself, or recovery silently
    // produces rubbish.
    for a in 1u16..256 {
        for b in 1u16..256 {
            let product = gf_mul(&tables, a as u8, b as u8);
            assert_ne!(product, 0, "{a} times {b} must not vanish");
            assert_eq!(
                gf_div(&tables, product, b as u8),
                a as u8,
                "{a} times {b} over {b}"
            );
        }
    }
    // Coefficients must be distinct across a group, otherwise the two
    // parity equations collapse into one.
    let weights: Vec<u8> = (0..GROUP).map(|i| coefficient(&tables, i)).collect();
    for i in 0..weights.len() {
        for j in (i + 1)..weights.len() {
            assert_ne!(weights[i], weights[j], "coefficients {i} and {j} collide");
        }
    }
}

#[test]
fn any_single_missing_fragment_is_rebuilt_exactly() {
    let group: Vec<Vec<u8>> = (0..GROUP)
        .map(|i| fragment((i as u8).wrapping_mul(13), BLOCK))
        .collect();
    let mut parity = [0u8; PARITY_LEN];
    for data in &group {
        accumulate(&mut parity, data);
    }

    for missing in 0..GROUP {
        let present: Vec<&[u8]> = group
            .iter()
            .enumerate()
            .filter(|(i, _)| *i != missing)
            .map(|(_, d)| d.as_slice())
            .collect();
        assert_eq!(
            recover(&parity, &present).as_deref(),
            Some(group[missing].as_slice()),
            "fragment {missing} must come back byte for byte"
        );
    }
}

#[test]
fn a_short_final_fragment_is_rebuilt_at_its_true_length() {
    // Real frames rarely divide evenly, so the last fragment is short.
    let group = vec![fragment(1, BLOCK), fragment(2, BLOCK), fragment(3, 37)];
    let mut parity = [0u8; PARITY_LEN];
    for data in &group {
        accumulate(&mut parity, data);
    }
    let present: Vec<&[u8]> = vec![&group[0], &group[1]];
    let rebuilt = recover(&parity, &present).expect("rebuilds");
    assert_eq!(
        rebuilt.len(),
        37,
        "the recovered length must be the true one"
    );
    assert_eq!(rebuilt, group[2]);
}

#[test]
fn two_losses_in_one_group_cannot_be_rebuilt() {
    let group: Vec<Vec<u8>> = (0..4).map(|i| fragment(i as u8, BLOCK)).collect();
    let mut parity = [0u8; PARITY_LEN];
    for data in &group {
        accumulate(&mut parity, data);
    }
    // Two absent: whatever comes out must not be mistaken for fragment 0.
    let present: Vec<&[u8]> = vec![&group[2], &group[3]];
    let rebuilt = recover(&parity, &present);
    assert_ne!(
        rebuilt.as_deref(),
        Some(group[0].as_slice()),
        "a second loss must not produce a plausible-looking fragment"
    );
}

/// A parity datagram must never need fragmenting: splitting the repair across
/// datagrams would let a single loss destroy the repair as well.
#[test]
fn a_parity_datagram_never_needs_fragmenting() {
    assert!(LEVEL_PREFIX + PARITY_LEN <= MAX_PAYLOAD);
    assert_eq!(PARITY_LEN, LENGTH_PREFIX + BLOCK);
    assert_eq!(MAX_PARITY, 2);
}

#[test]
fn encoding_replaces_what_was_there() {
    let mut out = vec![9u8];
    encode_fragment(&[5, 6, 7], &mut out);
    assert_eq!(out, vec![3, 0, 5, 6, 7]);
}

#[test]
fn the_field_has_its_known_products() {
    let tables = build_tables();
    // Multiplication modulo x^8 + x^4 + x^3 + x^2 + 1.
    assert_eq!(gf_mul(&tables, 2, 0x80), 0x1d);
    assert_eq!(gf_mul(&tables, 3, 7), 9);
    assert_eq!(gf_mul(&tables, 0, 200), 0);
    assert_eq!(gf_mul(&tables, 200, 0), 0);
    assert_eq!(gf_mul(&tables, 1, 200), 200);
    assert_eq!(gf_div(&tables, 0, 9), 0);
    assert_eq!(gf_div(&tables, 0x1d, 2), 0x80);
    assert_eq!(coefficient(&tables, 0), 1);
    assert_eq!(coefficient(&tables, 1), 2);
    assert_eq!(coefficient(&tables, 8), 0x1d);
    assert_eq!(coefficient(&tables, 255), 1);
}

#[test]
fn multiplication_commutes() {
    let tables = build_tables();
    for a in 0u16..256 {
        for b in 0u16..256 {
            assert_eq!(
                gf_mul(&tables, a as u8, b as u8),
                gf_mul(&tables, b as u8, a as u8)
            );
        }
    }
}

#[test]
fn powers_of_the_generator_cover_the_field() {
    let tables = build_tables();
    let mut seen = vec![false; 256];
    for i in 0..255 {
        let power = coefficient(&tables, i) as usize;
        assert!(!seen[power], "power {i} repeats");
        seen[power] = true;
    }
    assert!(!seen[0]);
    assert!(seen[1..].iter().all(|&s| s));
}

#[test]
fn the_plain_parity_is_the_exclusive_or() {
    let mut parity = [0u8; PARITY_LEN];
    accumulate(&mut parity, &[0x0f, 0xf0]);
    accumulate(&mut parity, &[0xff]);
    assert_eq!(parity[..5], [2 ^ 1, 0, 0x0f ^ 0xff, 0xf0, 0]);
    // The weighted parity scales the second member by the generator.
    let mut weighted = [0u8; PARITY_LEN];
    accumulate_at(&mut weighted, &[0x0f, 0xf0], 0, 1);
    accumulate_at(&mut weighted, &[0x80], 1, 1);
    assert_eq!(weighted[..5], [2 ^ 2, 0, 0x0f ^ 0x1d, 0xf0, 0]);
}

#[test]
fn a_complete_group_needs_no_repair() {
    let group: Vec<Vec<u8>> = (0..3).map(|i| fragment(i as u8, 20)).collect();
    let (p, q) = parity_for(&group);
    let mut fragments: Vec<Option<Vec<u8>>> = group.iter().cloned().map(Some).collect();
    assert_eq!(recover_group(&mut fragments, Some(&p), Some(&q)), 0);
    assert_eq!(
        fragments,
        group.iter().cloned().map(Some).collect::<Vec<_>>()
    );
}

#[test]
fn a_parity_block_of_the_wrong_shape_is_refused() {
    let group: Vec<Vec<u8>> = (0..3).map(|i| fragment(i as u8, 20)).collect();
    let (p, q) = parity_for(&group);
    let mut fragments: Vec<Option<Vec<u8>>> = group.iter().cloned().map(Some).collect();
    fragments[1] = None;
    assert_eq!(
        recover_group(&mut fragments, Some(&p[..PARITY_LEN - 1]), None),
        0
    );
    assert!(fragments[1].is_none());
    assert_eq!(recover(&p[1..], &[]), None);
    // Without any parity block there is nothing to repair from.
    assert_eq!(recover_group(&mut fragments, None, None), 0);
    assert_eq!(recover_group(&mut fragments, Some(&p), Some(&q)), 1);
    assert_eq!(fragments[1].as_deref(), Some(group[1].as_slice()));
}

#[test]
fn an_impossible_length_is_refused() {
    let mut parity = [0u8; PARITY_LEN];
    parity[0] = 0xff;
    parity[1] = 0xff;
    assert_eq!(recover(&parity, &[]), None);
    let mut fragments: Vec<Option<Vec<u8>>> = vec![None];
    assert_eq!(recover_group(&mut fragments, Some(&parity), None), 0);
    assert!(fragments[0].is_none());
}

#[test]
fn two_losses_of_one_length_are_refused() {
    let group: Vec<Vec<u8>> = (0..4)
        .map(|i| (0..BLOCK).map(|j| ((i + j) % 256) as u8).collect())
        .collect();
    let mut parity = [0u8; PARITY_LEN];
    for data in &group {
        accumulate(&mut parity, data);
    }
    assert_eq!(recover(&parity, &[&group[2], &group[3]]), None);
    let present: Vec<&[u8]> = vec![&group[1], &group[2], &group[3]];
    assert_eq!(recover(&parity, &present), Some(group[0].clone()));
}

#[test]
fn only_padding_may_follow_a_rebuilt_fragment() {
    let mut parity = [0u8; PARITY_LEN];
    accumulate(&mut parity, &[1, 2, 3]);
    assert_eq!(recover(&parity, &[]), Some(vec![1, 2, 3]));
    parity[PARITY_LEN - 1] = 1;
    assert_eq!(recover(&parity, &[]), None);
}
