//! One recording through one effect: decoding, the engine, quantizing.
use vstd::prelude::*;
use crate::chorus::{apply_chorus_effect, chorus_gain, chorus_output, frames_q16, modulation_in_range};
use crate::delay::{apply_delay_effect, delay_gain, delay_len, echo_output};
use crate::pcm::{decode_samples, encode_samples, quantize, Effect};

verus! {

/// PCM samples as engine samples.
pub open spec fn decoded(pcm: Seq<i16>) -> Seq<i32> {
    pcm.map_values(|x: i16| x as i32)
}

/// The engine output of `effect` on `input`, before quantizing.
pub open spec fn effect_output(
    effect: Effect,
    input: Seq<i32>,
    sample_rate: u32,
    wet: i32,
    delay_us: u64,
    gain: i64,
    modulation: Seq<i32>,
    depth_us: u64,
) -> Seq<int> {
    let d = delay_len(delay_us as int, sample_rate as int);
    let base = frames_q16(delay_us as int, sample_rate as int);
    let depth = frames_q16(depth_us as int, sample_rate as int);
    match effect {
        Effect::Echo => echo_output(input, d, delay_gain(gain as int), wet as int, false),
        Effect::Reverb => echo_output(input, d, delay_gain(gain as int), wet as int, true),
        Effect::Chorus => chorus_output(
            input,
            modulation,
            base,
            depth,
            chorus_gain(gain as int),
            wet as int,
        ),
    }
}

/// Applies `effect` to 16-bit PCM samples and quantizes the result.
///
/// `gain` is the RT60 feedback gain in Q30, `wet` the Q15 wet share;
/// `modulation` (the chorus oscillator per frame) and `depth_us` serve the
/// chorus only.
pub fn process_samples(
    pcm: &Vec<i16>,
    sample_rate: u32,
    effect: Effect,
    wet: i32,
    delay_us: u64,
    gain: i64,
    modulation: &Vec<i32>,
    depth_us: u64,
) -> (out: Vec<i16>)
    requires
        effect == Effect::Chorus ==> modulation@.len() == pcm@.len() && modulation_in_range(
            modulation@,
        ),
    ensures
        out@.len() == pcm@.len(),
        forall|i: int|
            0 <= i < pcm@.len() ==> #[trigger] out@[i] as int == quantize(
                effect_output(
                    effect,
                    decoded(pcm@),
                    sample_rate,
                    wet,
                    delay_us,
                    gain,
                    modulation@,
                    depth_us,
                )[i],
            ),
{
    let input = decode_samples(pcm);
    assert(input@ =~= decoded(pcm@));
    let output = match effect {
        Effect::Chorus => apply_chorus_effect(
            &input,
            sample_rate,
            wet,
            delay_us,
            gain,
            modulation,
            depth_us,
        ),
        _ => {
            apply_delay_effect(
                &input,
                sample_rate,
                wet,
                delay_us,
                gain,
                effect == Effect::Reverb,
            )
        },
    };
    encode_samples(&output)
}

} // verus!
