use pair::chunks::{count_blocks, take_block};
use pair::endian::{append_bytes, push_le, read_le};
use pair::samples::{append_samples, read_sample};

#[test]
fn numbers_are_little_endian() {
    let mut out = vec![0xff];
    push_le(&mut out, 0x0102_0304, 4);
    assert_eq!(out, vec![0xff, 4, 3, 2, 1]);
    assert_eq!(read_le(&out, 1, 4), 0x0102_0304);
    assert_eq!(read_le(&out, 1, 2), 0x0304);
    push_le(&mut out, u64::MAX, 8);
    assert_eq!(read_le(&out, 5, 8), u64::MAX);
    assert_eq!(read_le(&out, 0, 0), 0);
}

#[test]
fn bytes_are_appended_in_order() {
    let mut out = vec![1];
    append_bytes(&mut out, &[2, 3]);
    append_bytes(&mut out, &[]);
    assert_eq!(out, vec![1, 2, 3]);
}

#[test]
fn blocks_join_to_the_whole() {
    let data: Vec<u8> = (0..23).collect();
    for size in [1usize, 5, 23, 24] {
        let count = count_blocks(data.len(), size);
        let joined: Vec<u8> = (0..count)
            .flat_map(|i| take_block(&data, size, i).to_vec())
            .collect();
        assert_eq!(joined, data);
    }
    assert_eq!(count_blocks(23, 5), 5);
    assert_eq!(take_block(&data, 5, 4), &[20, 21, 22]);
}

#[test]
fn samples_keep_their_bits() {
    let samples = [1.5f32.to_bits(), f32::NAN.to_bits(), (-0.0f32).to_bits()];
    let mut out = Vec::new();
    append_samples(&mut out, &samples, 0, 3);
    assert_eq!(out.len(), 12);
    assert_eq!(out[..4], 1.5f32.to_le_bytes());
    for (i, sample) in samples.iter().enumerate() {
        assert_eq!(read_sample(&out, i), *sample);
    }
    let mut tail = Vec::new();
    append_samples(&mut tail, &samples, 2, 3);
    assert_eq!(tail, out[8..]);
}
