//! Minimal WAV format, used to record a received session.
//!
//! Audio arrives as uncompressed 32-bit float, so it is written out unchanged
//! rather than being quantised on the way to disk. The sizes in the header are
//! only known at the end, so a recording starts with a placeholder header and is
//! finished by two patches.

use vstd::prelude::*;

use crate::endian;
use crate::endian::{append_bytes, push_le};
use crate::packet::wire;
use crate::packet::{SampleRate, AUDIO_CHANNELS};
use crate::samples;
use crate::samples::append_samples;

verus! {

/// IEEE float sample format.
pub const FORMAT_FLOAT: u16 = 3;

pub const BITS_PER_SAMPLE: u16 = 32;

/// Length of the header.
pub const WAV_HEADER_LEN: usize = 44;

/// The header of a file, with the sizes of the whole and of the audio in it.
pub open spec fn header_bytes(rate: SampleRate, riff_size: u32, data_size: u32) -> Seq<u8> {
    seq![0x52u8, 0x49, 0x46, 0x46] + endian::le_bytes(riff_size as nat, 4) + seq![
        0x57u8,
        0x41,
        0x56,
        0x45,
    ] + seq![0x66u8, 0x6d, 0x74, 0x20] + endian::le_bytes(16, 4) + endian::le_bytes(
        FORMAT_FLOAT as nat,
        2,
    ) + endian::le_bytes(2, 2) + endian::le_bytes(rate.frequency() as nat, 4) + endian::le_bytes(
        rate.frequency() as nat * 8,
        4,
    ) + endian::le_bytes(8, 2) + endian::le_bytes(BITS_PER_SAMPLE as nat, 2) + seq![
        0x64u8,
        0x61,
        0x74,
        0x61,
    ] + endian::le_bytes(data_size as nat, 4)
}

/// A file with `bytes` written over it at `at`.
pub open spec fn patched(file: Seq<u8>, at: int, bytes: Seq<u8>) -> Seq<u8> {
    file.take(at) + bytes + file.skip(at + bytes.len())
}

/// Bytes to write over a finished recording.
pub struct Patch {
    pub at: u64,
    pub bytes: Vec<u8>,
}

/// Lays out a recording.
pub struct WavWriter {
    pub data_bytes: u32,
    pub rate: SampleRate,
}

impl WavWriter {
    /// Starts a recording, and appends its placeholder header to `out`.
    pub fn create(rate: SampleRate, out: &mut Vec<u8>) -> (writer: Self)
        ensures
            writer == (WavWriter { data_bytes: 0, rate }),
            final(out)@ == old(out)@ + header_bytes(rate, 0, 0),
    {
        let writer = WavWriter { data_bytes: 0, rate };
        writer.write_header(out);
        writer
    }

    /// Appends a placeholder header; the sizes are filled in by `finish`.
    fn write_header(&self, out: &mut Vec<u8>)
        ensures
            final(out)@ == old(out)@ + header_bytes(self.rate, 0, 0),
    {
        let channels: u64 = AUDIO_CHANNELS as u64;
        let bytes_per_frame: u64 = channels * (BITS_PER_SAMPLE as u64 / 8);
        let hz: u64 = self.rate.hz() as u64;

        append_bytes(out, &[0x52, 0x49, 0x46, 0x46]);
        push_le(out, 0, 4);
        append_bytes(out, &[0x57, 0x41, 0x56, 0x45]);

        append_bytes(out, &[0x66, 0x6d, 0x74, 0x20]);
        push_le(out, 16, 4);
        push_le(out, FORMAT_FLOAT as u64, 2);
        push_le(out, channels, 2);
        push_le(out, hz, 4);
        push_le(out, hz * bytes_per_frame, 4);
        push_le(out, bytes_per_frame, 2);
        push_le(out, BITS_PER_SAMPLE as u64, 2);

        append_bytes(out, &[0x64, 0x61, 0x74, 0x61]);
        push_le(out, 0, 4);
        assert(out@ =~= old(out)@ + header_bytes(self.rate, 0, 0));
    }

    /// Appends samples to `out` as they are.
    pub fn write(&mut self, samples: &[u32], out: &mut Vec<u8>)
        requires
            samples@.len() * 4 <= usize::MAX,
            old(self).data_bytes + (samples@.len() * 4) as u32 <= u32::MAX,
        ensures
            final(out)@ == old(out)@ + samples::sample_bytes(samples@),
            *final(self) == (WavWriter {
                data_bytes: (old(self).data_bytes + (samples@.len() * 4) as u32) as u32,
                ..*old(self)
            }),
    {
        append_samples(out, samples, 0, samples.len());
        assert(samples@.subrange(0, samples@.len() as int) =~= samples@);
        self.data_bytes = self.data_bytes + (samples.len() * 4) as u32;
    }

    /// What to write over the recording to fill in the two sizes.
    pub fn finish(self) -> (patches: [Patch; 2])
        requires
            36 + self.data_bytes <= u32::MAX,
        ensures
            patches@[0].at == 4,
            patches@[0].bytes@ == endian::le_bytes((36 + self.data_bytes) as nat, 4),
            patches@[1].at == 40,
            patches@[1].bytes@ == endian::le_bytes(self.data_bytes as nat, 4),
    {
        let mut riff: Vec<u8> = Vec::new();
        push_le(&mut riff, (36 + self.data_bytes) as u64, 4);
        let mut data: Vec<u8> = Vec::new();
        push_le(&mut data, self.data_bytes as u64, 4);
        assert(riff@ =~= endian::le_bytes((36 + self.data_bytes) as nat, 4));
        assert(data@ =~= endian::le_bytes(self.data_bytes as nat, 4));
        [Patch { at: 4, bytes: riff }, Patch { at: 40, bytes: data }]
    }
}

/// A finished recording is a valid file: the header states the rate and the true
/// sizes, and the samples follow it unchanged. The sizes fit four bytes.
pub proof fn law_finished_recordings_are_valid(rate: SampleRate, recorded: Seq<u32>)
    requires
        36 + 4 * recorded.len() <= u32::MAX,
    ensures
        ({
            let n = 4 * recorded.len();
            let file = header_bytes(rate, 0, 0) + samples::sample_bytes(recorded);
            let sized = patched(file, 4, endian::le_bytes(36 + n, 4));
            let done = patched(sized, 40, endian::le_bytes(n, 4));
            &&& done == header_bytes(rate, (36 + n) as u32, n as u32) + samples::sample_bytes(
                recorded,
            )
            &&& done.len() == WAV_HEADER_LEN + n
            &&& samples::samples_in(done.skip(WAV_HEADER_LEN as int)) == recorded
        }),
{
    broadcast use endian::lemma_le_bytes_len;

    let n = 4 * recorded.len();
    let audio = samples::sample_bytes(recorded);
    let file = header_bytes(rate, 0, 0) + audio;
    let sized = patched(file, 4, endian::le_bytes(36 + n, 4));
    let done = patched(sized, 40, endian::le_bytes(n, 4));
    samples::law_samples_roundtrip(recorded);
    assert(sized =~= header_bytes(rate, (36 + n) as u32, 0) + audio);
    assert(done =~= header_bytes(rate, (36 + n) as u32, n as u32) + audio);
    assert(done.skip(WAV_HEADER_LEN as int) =~= audio);
}

/// A recording's header is that of a stereo file of 32-bit floats: each number and
/// name stands where such files have them, little-endian.
pub proof fn law_a_header_describes_stereo_floats(rate: SampleRate, riff_size: u32, data_size: u32)
    ensures
        ({
            let b = header_bytes(rate, riff_size, data_size);
            &&& b.len() == 44
            &&& b.subrange(0, 4) == seq![0x52u8, 0x49, 0x46, 0x46]
            &&& wire::four_at(b, 4) == riff_size
            &&& b.subrange(8, 16) == seq![0x57u8, 0x41, 0x56, 0x45, 0x66, 0x6d, 0x74, 0x20]
            &&& wire::four_at(b, 16) == 16
            &&& wire::two_at(b, 20) == 3
            &&& wire::two_at(b, 22) == 2
            &&& wire::four_at(b, 24) == rate.frequency()
            &&& wire::four_at(b, 28) == rate.frequency() * 8
            &&& wire::two_at(b, 32) == 8
            &&& wire::two_at(b, 34) == 32
            &&& b.subrange(36, 40) == seq![0x64u8, 0x61, 0x74, 0x61]
            &&& wire::four_at(b, 40) == data_size
        }),
{
    broadcast use endian::lemma_le_bytes_len;

    let b = header_bytes(rate, riff_size, data_size);
    let hz = rate.frequency() as nat;
    assert(b.subrange(0, 4) =~= seq![0x52u8, 0x49, 0x46, 0x46]);
    assert(b.subrange(8, 16) =~= seq![0x57u8, 0x41, 0x56, 0x45, 0x66, 0x6d, 0x74, 0x20]);
    assert(b.subrange(36, 40) =~= seq![0x64u8, 0x61, 0x74, 0x61]);
    lemma_four(b, 4, riff_size as nat);
    lemma_four(b, 16, 16);
    lemma_two(b, 20, 3);
    lemma_two(b, 22, 2);
    lemma_four(b, 24, hz);
    lemma_four(b, 28, hz * 8);
    lemma_two(b, 32, 8);
    lemma_two(b, 34, 32);
    lemma_four(b, 40, data_size as nat);
}

proof fn lemma_four(b: Seq<u8>, at: int, x: nat)
    requires
        0 <= at,
        at + 4 <= b.len(),
        x <= u32::MAX,
        b.subrange(at, at + 4) =~= endian::le_bytes(x, 4),
    ensures
        wire::four_at(b, at) == x,
{
    endian::lemma_pow256_values();
    endian::law_value_of_bytes(x, 4);
    endian::law_numbers_start_with_their_low_byte(b.subrange(at, at + 4));
}

proof fn lemma_two(b: Seq<u8>, at: int, x: nat)
    requires
        0 <= at,
        at + 2 <= b.len(),
        x <= u16::MAX,
        b.subrange(at, at + 2) =~= endian::le_bytes(x, 2),
    ensures
        wire::two_at(b, at) == x,
{
    endian::lemma_pow256_values();
    endian::law_value_of_bytes(x, 2);
    endian::law_numbers_start_with_their_low_byte(b.subrange(at, at + 2));
}

/// Patching a file writes over it in place and leaves the rest.
pub proof fn law_a_patch_is_written_in_place(file: Seq<u8>, at: int, bytes: Seq<u8>, i: int)
    requires
        0 <= at,
        at + bytes.len() <= file.len(),
        0 <= i < file.len(),
    ensures
        patched(file, at, bytes).len() == file.len(),
        patched(file, at, bytes)[i] == if at <= i < at + bytes.len() {
            bytes[i - at]
        } else {
            file[i]
        },
{
}

} // verus!
