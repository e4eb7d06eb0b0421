//! The boundary between 16-bit PCM files and the effect engines: which
//! formats are accepted, which effect a name selects, and the conversion of
//! samples in both directions.
use vstd::prelude::*;
use vstd::string::StringSliceAdditionalSpecFns;
use crate::fixed::{ONE, UNIT, clamp, div_trunc};
use crate::delay::samples_in_range;

verus! {

/// The only sample rate accepted.
pub const REQUIRED_SAMPLE_RATE: u32 = 16000;

/// The only sample width accepted, in bits.
pub const REQUIRED_BITS: u16 = 16;

/// Why a recording's format is refused.
#[derive(Debug, Clone, Copy, PartialEq, Eq, Structural)]
pub enum FormatError {
    /// More or fewer than one channel.
    NotMono,
    /// A sample rate other than 16 kHz.
    UnsupportedSampleRate,
    /// A sample width other than 16 bits.
    UnsupportedBitDepth,
}

/// The effects on offer.
#[derive(Debug, Clone, Copy, PartialEq, Eq, Structural)]
pub enum Effect {
    /// Plain feedback echo.
    Echo,
    /// Echo with a lowpass in the feedback path.
    Reverb,
    /// Modulated fractional delay.
    Chorus,
}

/// The format verdict, checking channels, then rate, then width.
pub open spec fn format_verdict(channels: int, sample_rate: int, bits: int) -> Result<(), FormatError> {
    if channels != 1 {
        Err(FormatError::NotMono)
    } else if sample_rate != REQUIRED_SAMPLE_RATE {
        Err(FormatError::UnsupportedSampleRate)
    } else if bits != REQUIRED_BITS {
        Err(FormatError::UnsupportedBitDepth)
    } else {
        Ok(())
    }
}

/// Accepts mono, 16 kHz, 16-bit recordings and names the first mismatch of any other.
pub fn check_format(channels: u16, sample_rate: u32, bits_per_sample: u16) -> (r: Result<(), FormatError>)
    ensures
        r == format_verdict(channels as int, sample_rate as int, bits_per_sample as int),
{
    if channels != 1 {
        Err(FormatError::NotMono)
    } else if sample_rate != REQUIRED_SAMPLE_RATE {
        Err(FormatError::UnsupportedSampleRate)
    } else if bits_per_sample != REQUIRED_BITS {
        Err(FormatError::UnsupportedBitDepth)
    } else {
        Ok(())
    }
}

/// The effect that a name in bytes selects, if any.
pub open spec fn effect_named(name: Seq<u8>) -> Option<Effect> {
    if name == seq![101u8, 99u8, 104u8, 111u8] {
        Some(Effect::Echo)
    } else if name == seq![114u8, 101u8, 118u8, 101u8, 114u8, 98u8] {
        Some(Effect::Reverb)
    } else if name == seq![99u8, 104u8, 111u8, 114u8, 117u8, 115u8] {
        Some(Effect::Chorus)
    } else {
        None
    }
}

fn bytes_equal(a: &[u8], b: &Vec<u8>) -> (r: bool)
    ensures
        r == (a@ == b@),
{
    if a.len() != b.len() {
        return false;
    }
    let mut i: usize = 0;
    while i < a.len()
        invariant
            a@.len() == b@.len(),
            i <= a@.len(),
            forall|j: int| 0 <= j < i ==> a@[j] == b@[j],
        decreases a@.len() - i,
    {
        if a[i] != b[i] {
            return false;
        }
        i = i + 1;
    }
    assert(a@ =~= b@);
    true
}

impl Effect {
    /// The effect called `name`: "echo", "reverb" or "chorus".
    pub fn from_name(name: &str) -> (r: Option<Effect>)
        ensures
            r == effect_named(name.spec_bytes()),
    {
        let b = name.as_bytes();
        let echo: Vec<u8> = vec![101u8, 99u8, 104u8, 111u8];
        let reverb: Vec<u8> = vec![114u8, 101u8, 118u8, 101u8, 114u8, 98u8];
        let chorus: Vec<u8> = vec![99u8, 104u8, 111u8, 114u8, 117u8, 115u8];
        if bytes_equal(b, &echo) {
            Some(Effect::Echo)
        } else if bytes_equal(b, &reverb) {
            Some(Effect::Reverb)
        } else if bytes_equal(b, &chorus) {
            Some(Effect::Chorus)
        } else {
            None
        }
    }
}

/// A 16-bit PCM sample as an engine sample: `pcm / 32768` is the same value
/// in Q15, so the integer is kept as it is.
pub fn decode_samples(pcm: &Vec<i16>) -> (samples: Vec<i32>)
    ensures
        samples@.len() == pcm@.len(),
        forall|i: int| 0 <= i < pcm@.len() ==> #[trigger] samples@[i] == pcm@[i] as i32,
        samples_in_range(samples@),
{
    let mut samples: Vec<i32> = Vec::new();
    let mut i: usize = 0;
    while i < pcm.len()
        invariant
            i <= pcm@.len(),
            samples@.len() == i,
            forall|j: int| 0 <= j < i ==> #[trigger] samples@[j] == pcm@[j] as i32,
        decreases pcm@.len() - i,
    {
        samples.push(pcm[i] as i32);
        i = i + 1;
    }
    samples
}

/// An engine output frame (Q45, `ONE * UNIT` is 1.0) back in 16-bit PCM:
/// `clamp(x * 32767, -32768, 32767)` with `x` the amplitude, rounded toward
/// zero. This is the only rounding between the mix and the file.
pub open spec fn quantize(q: int) -> int {
    clamp(div_trunc(q * 32767, ONE * UNIT), -32768, 32767)
}

/// Quantizes one engine output frame to 16-bit PCM.
pub fn to_pcm16(q: i128) -> (r: i16)
    ensures
        r == quantize(q as int),
{
    if q > 0x4_0000_0000_0000 {
        assert(q * 32767 / 0x2000_0000_0000 >= 32767) by (nonlinear_arith)
            requires q > 0x4_0000_0000_0000;
        32767
    } else if q < -0x4_0000_0000_0000 {
        assert((-(q * 32767)) / 0x2000_0000_0000 >= 32768) by (nonlinear_arith)
            requires q < -0x4_0000_0000_0000;
        -32768
    } else {
        let v = q * 32767 / 0x2000_0000_0000;
        if v < -32768 {
            -32768
        } else if v > 32767 {
            32767
        } else {
            v as i16
        }
    }
}

/// Quantizes a whole engine output to 16-bit PCM.
pub fn encode_samples(samples: &Vec<i128>) -> (pcm: Vec<i16>)
    ensures
        pcm@.len() == samples@.len(),
        forall|i: int| 0 <= i < samples@.len() ==> #[trigger] pcm@[i] as int == quantize(samples@[i] as int),
{
    let mut pcm: Vec<i16> = Vec::new();
    let mut i: usize = 0;
    while i < samples.len()
        invariant
            i <= samples@.len(),
            pcm@.len() == i,
            forall|j: int| 0 <= j < i ==> #[trigger] pcm@[j] as int == quantize(samples@[j] as int),
        decreases samples@.len() - i,
    {
        pcm.push(to_pcm16(samples[i]));
        i = i + 1;
    }
    pcm
}

} // verus!
