//! WAV files.
use vstd::prelude::*;

use crate::audio::samples::{
    decoded, decoding_undoes_encoding, encoded, samples_are_written_little_endian,
};
use crate::audio::{CHANNELS, SAMPLE_RATE};

verus! {

/// Bits of a sample.
pub const BITS_PER_SAMPLE: u16 = 16;

/// `n` in two bytes, the low one first.
pub open spec fn two_bytes(n: nat) -> Seq<u8> {
    seq![(n % 256) as u8, (n / 256 % 256) as u8]
}

/// `n` in four bytes, the low one first.
pub open spec fn four_bytes(n: nat) -> Seq<u8> {
    two_bytes(n % 0x10000) + two_bytes(n / 0x10000)
}

/// The header of a WAV file with `data` bytes of integer samples of 16 bits.
pub open spec fn wav_header(channels: nat, sample_rate: nat, data: nat) -> Seq<u8> {
    let riff = seq![0x52u8, 0x49u8, 0x46u8, 0x46u8];
    let wave = seq![0x57u8, 0x41u8, 0x56u8, 0x45u8];
    let fmt = seq![0x66u8, 0x6du8, 0x74u8, 0x20u8];
    let data_tag = seq![0x64u8, 0x61u8, 0x74u8, 0x61u8];
    let format = two_bytes(1) + two_bytes(channels) + four_bytes(sample_rate) + four_bytes(
        2 * channels * sample_rate,
    ) + two_bytes(2 * channels) + two_bytes(16);
    riff + four_bytes(36 + data) + wave + fmt + four_bytes(16) + format + data_tag + four_bytes(
        data,
    )
}

/// The WAV file of `samples`.
pub open spec fn wav_file(channels: nat, sample_rate: nat, samples: Seq<i16>) -> Seq<u8> {
    wav_header(channels, sample_rate, 2 * samples.len()) + encoded(samples)
}

/// Why a WAV file could not be written.
#[derive(Debug, Clone, Copy, PartialEq, Eq)]
pub enum WavError {
    /// The encoder refused the samples.
    Encoder,
}

/// An error of hound.
#[verifier::external_type_specification]
#[verifier::external_body]
pub struct ExHoundError(hound::Error);

/// Calls `hound::WavWriter::new`, `write_sample` for each sample, and `finalize`,
/// on a buffer in memory that the writer borrows from first to last. For samples
/// of 16 bits in one or two channels hound writes the header of 44 bytes that
/// `wav_header` gives, then each sample in two bytes; it refuses none of them,
/// as long as the frames are complete and the sizes fit the 32 bits that the
/// header has for them.
#[verifier::external_body]
fn write_wav(samples: &[i16], channels: u16, sample_rate: u32, bits_per_sample: u16) -> (r: Result<
    Vec<u8>,
    hound::Error,
>)
    requires
        1 <= channels <= 2,
        bits_per_sample == 16,
        sample_rate > 0,
        2 * channels * sample_rate <= u32::MAX,
        samples@.len() % (channels as nat) == 0,
        36 + 2 * samples@.len() <= u32::MAX,
    ensures
        r is Ok,
        r->Ok_0@ == wav_file(channels as nat, sample_rate as nat, samples@),
{
    let sample_format = hound::SampleFormat::Int;
    let spec = hound::WavSpec { channels, sample_rate, bits_per_sample, sample_format };
    let mut cursor = std::io::Cursor::new(Vec::new());
    let mut writer = hound::WavWriter::new(&mut cursor, spec)?;
    for &sample in samples {
        writer.write_sample(sample)?;
    }
    writer.finalize()?;
    Ok(cursor.into_inner())
}

/// Encode raw PCM samples (16kHz, mono, i16) to a WAV byte buffer.
pub fn encode_wav(samples: &[i16]) -> (r: Result<Vec<u8>, WavError>)
    requires
        36 + 2 * samples@.len() <= u32::MAX,
    ensures
        r is Ok,
        r->Ok_0@ == wav_file(CHANNELS as nat, SAMPLE_RATE as nat, samples@),
{
    match write_wav(samples, CHANNELS, SAMPLE_RATE, BITS_PER_SAMPLE) {
        Ok(bytes) => Ok(bytes),
        Err(_) => Err(WavError::Encoder),
    }
}

/// The number in the two bytes of `bytes` from `at` on, the low one first.
pub open spec fn two_bytes_at(bytes: Seq<u8>, at: int) -> nat {
    (bytes[at] + 256 * bytes[at + 1]) as nat
}

/// The number in the four bytes of `bytes` from `at` on, the low one first.
pub open spec fn four_bytes_at(bytes: Seq<u8>, at: int) -> nat {
    two_bytes_at(bytes, at) + 0x10000 * two_bytes_at(bytes, at + 2)
}

/// A WAV file reads back as it was written: the channels, the sample rate and the
/// bits of a sample stand in its header, the sizes in it are those of the file and
/// of its data, and the data are the samples.
pub proof fn wav_reads_back(channels: nat, sample_rate: nat, samples: Seq<i16>)
    requires
        channels <= u16::MAX,
        sample_rate <= u32::MAX,
        36 + 2 * samples.len() <= u32::MAX,
    ensures
        ({
            let file = wav_file(channels, sample_rate, samples);
            let data = four_bytes_at(file, 40);
            &&& file.take(4) == seq![0x52u8, 0x49u8, 0x46u8, 0x46u8]
            &&& four_bytes_at(file, 4) == file.len() - 8
            &&& two_bytes_at(file, 22) == channels
            &&& four_bytes_at(file, 24) == sample_rate
            &&& two_bytes_at(file, 34) == 16
            &&& data == 2 * samples.len()
            &&& 44 + data == file.len()
            &&& decoded(file.subrange(44, (44 + data) as int)) == samples
        }),
{
    let file = wav_file(channels, sample_rate, samples);
    let header = wav_header(channels, sample_rate, 2 * samples.len());
    assert(header.len() == 44);
    assert(file.take(4) =~= seq![0x52u8, 0x49u8, 0x46u8, 0x46u8]);
    assert(file.skip(44) =~= encoded(samples));
    assert(file.subrange(44, file.len() as int) =~= file.skip(44));
    decoding_undoes_encoding(samples);
}

/// A recording is written as what it is: integer samples in one channel, 16000 a second
/// and of 16 bits, with the tags, the rate of bytes and the size of a frame that such a
/// file has.
pub proof fn recordings_are_mono_at_16000(samples: Seq<i16>)
    requires
        36 + 2 * samples.len() <= u32::MAX,
    ensures
        ({
            let file = wav_file(CHANNELS as nat, SAMPLE_RATE as nat, samples);
            &&& file.take(4) == seq![0x52u8, 0x49u8, 0x46u8, 0x46u8]
            &&& file.subrange(8, 12) == seq![0x57u8, 0x41u8, 0x56u8, 0x45u8]
            &&& file.subrange(12, 16) == seq![0x66u8, 0x6du8, 0x74u8, 0x20u8]
            &&& four_bytes_at(file, 16) == 16
            &&& two_bytes_at(file, 20) == 1
            &&& two_bytes_at(file, 22) == 1
            &&& four_bytes_at(file, 24) == 16000
            &&& four_bytes_at(file, 28) == 32000
            &&& two_bytes_at(file, 32) == 2
            &&& two_bytes_at(file, 34) == 16
            &&& file.subrange(36, 40) == seq![0x64u8, 0x61u8, 0x74u8, 0x61u8]
            &&& four_bytes_at(file, 4) == 36 + 2 * samples.len()
            &&& four_bytes_at(file, 40) == 2 * samples.len()
            &&& file.len() == 44 + 2 * samples.len()
        }),
{
    let file = wav_file(CHANNELS as nat, SAMPLE_RATE as nat, samples);
    let header = wav_header(CHANNELS as nat, SAMPLE_RATE as nat, 2 * samples.len());
    wav_reads_back(CHANNELS as nat, SAMPLE_RATE as nat, samples);
    assert(header.len() == 44);
    assert(file.subrange(8, 12) =~= seq![0x57u8, 0x41u8, 0x56u8, 0x45u8]);
    assert(file.subrange(12, 16) =~= seq![0x66u8, 0x6du8, 0x74u8, 0x20u8]);
    assert(file.subrange(36, 40) =~= seq![0x64u8, 0x61u8, 0x74u8, 0x61u8]);
}

/// The sample at a place of a recording stands, low byte first and in two's complement,
/// two bytes for each sample before it behind the header.
pub proof fn recorded_samples_stand_behind_the_header(samples: Seq<i16>, i: int)
    requires
        0 <= i < samples.len(),
    ensures
        ({
            let file = wav_file(CHANNELS as nat, SAMPLE_RATE as nat, samples);
            let number = two_bytes_at(file, 44 + 2 * i);
            number == samples[i] || number == samples[i] + 0x10000
        }),
{
    let header = wav_header(CHANNELS as nat, SAMPLE_RATE as nat, 2 * samples.len());
    assert(header.len() == 44);
    samples_are_written_little_endian(samples, i);
}

} // verus!
