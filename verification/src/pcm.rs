//! Raw audio samples.
//!
//! A sample is a 32-bit floating-point number, held here as its bit pattern.

use vstd::prelude::*;

use crate::text::{decimal, push_decimal};

verus! {

/// A byte stream that ends in the middle of a sample.
#[derive(Debug)]
pub struct PartialSample {
    /// How many bytes the stream has.
    pub len: usize,
}

impl PartialSample {
    /// What to tell the user.
    pub fn message(&self) -> (message: String)
        ensures
            message@ == "PCM byte stream length "@ + decimal(self.len as int)
                + " is not a whole number of f32 samples"@,
    {
        let mut message = "PCM byte stream length ".to_owned();
        push_decimal(&mut message, self.len as u128);
        message.append(" is not a whole number of f32 samples");
        message
    }
}

/// The bit pattern of sample `k`: four bytes, the least significant first.
pub open spec fn sample_at(bytes: Seq<u8>, k: int) -> int {
    bytes[4 * k] + bytes[4 * k + 1] * 0x100 + bytes[4 * k + 2] * 0x1_0000 + bytes[4 * k + 3]
        * 0x100_0000
}

/// Reinterpret raw little-endian PCM bytes as audio samples.
pub fn pcm_f32le_to_samples(bytes: &[u8]) -> (samples: Result<Vec<u32>, PartialSample>)
    ensures
        match samples {
            Ok(samples) => {
                &&& bytes@.len() == 4 * samples@.len()
                &&& forall|k: int|
                    0 <= k < samples@.len() ==> #[trigger] samples@[k] == sample_at(bytes@, k)
            },
            Err(error) => bytes@.len() % 4 != 0 && error.len == bytes@.len(),
        },
{
    if bytes.len() % 4 != 0 {
        return Err(PartialSample { len: bytes.len() });
    }
    let count = bytes.len() / 4;
    let mut samples: Vec<u32> = Vec::new();
    for k in 0..count
        invariant
            bytes@.len() == bytes.len() == 4 * count,
            samples@.len() == k,
            forall|m: int| 0 <= m < k ==> #[trigger] samples@[m] == sample_at(bytes@, m),
    {
        samples.push(
            bytes[4 * k] as u32 + bytes[4 * k + 1] as u32 * 0x100 + bytes[4 * k + 2] as u32
                * 0x1_0000 + bytes[4 * k + 3] as u32 * 0x100_0000,
        );
    }
    Ok(samples)
}

/// The bytes of a sequence of samples, each sample's least significant byte first.
pub open spec fn sample_bytes(samples: Seq<u32>) -> Seq<u8> {
    Seq::new(
        4 * samples.len(),
        |i: int|
            (if i % 4 == 0 {
                samples[i / 4] as int % 0x100
            } else if i % 4 == 1 {
                samples[i / 4] as int / 0x100 % 0x100
            } else if i % 4 == 2 {
                samples[i / 4] as int / 0x1_0000 % 0x100
            } else {
                samples[i / 4] as int / 0x100_0000
            }) as u8,
    )
}

/// Samples that are written out as bytes are read back as they were.
pub proof fn law_samples_round_trip(samples: Seq<u32>, k: int)
    requires
        0 <= k < samples.len(),
    ensures
        sample_at(sample_bytes(samples), k) == samples[k],
{
    let bytes = sample_bytes(samples);
    assert((4 * k) % 4 == 0 && (4 * k) / 4 == k);
    assert((4 * k + 1) % 4 == 1 && (4 * k + 1) / 4 == k);
    assert((4 * k + 2) % 4 == 2 && (4 * k + 2) / 4 == k);
    assert((4 * k + 3) % 4 == 3 && (4 * k + 3) / 4 == k);
}

/// The first byte of a sample counts single steps and each next one 256 times as much: where
/// two byte streams agree but for the bytes of sample `k`, the samples differ as their bytes
/// do, and no other sample differs.
pub proof fn law_first_byte_counts_least(a: Seq<u8>, b: Seq<u8>, k: int, m: int)
    requires
        a.len() == b.len(),
        0 <= k < m,
        4 * m + 3 < a.len(),
        forall|i: int| 0 <= i < a.len() && i / 4 != k ==> #[trigger] a[i] == b[i],
    ensures
        sample_at(a, k) - sample_at(b, k) == (a[4 * k] - b[4 * k]) + 256 * (a[4 * k + 1] - b[4 * k
            + 1]) + 65536 * (a[4 * k + 2] - b[4 * k + 2]) + 16777216 * (a[4 * k + 3] - b[4 * k
            + 3]),
        sample_at(a, m) == sample_at(b, m),
        (forall|i: int| 4 * k <= i < 4 * k + 4 ==> #[trigger] a[i] == 0) ==> sample_at(a, k) == 0,
{
    assert(a[4 * m] == b[4 * m]);
    assert(a[4 * m + 1] == b[4 * m + 1]);
    assert(a[4 * m + 2] == b[4 * m + 2]);
    assert(a[4 * m + 3] == b[4 * m + 3]);
}

} // verus!
