//! The echo and reverb engine: one circular delay line with scalar feedback,
//! and for reverb a one-pole lowpass in the feedback path.
use vstd::prelude::*;
use vstd::arithmetic::div_mod::{
    lemma_add_mod_noop, lemma_mod_sub_multiples_vanish, lemma_small_mod,
};
use crate::fixed::{
    ONE, UNIT, abs, clamp, div_trunc, mix, scale, mul_gain, lemma_div_trunc_bound,
    lemma_mod_distinct, lemma_mul_bound, lemma_scale_shrinks,
    lemma_scale_unit,
};

verus! {

/// Weight of the newest value in the reverb lowpass (0.5 in Q15).
pub const LP_COEFF: i32 = 16384;

/// Every sample lies in `[-1.0, 1.0]`.
pub open spec fn samples_in_range(s: Seq<i32>) -> bool {
    forall|i: int| 0 <= i < s.len() ==> -ONE <= #[trigger] s[i] <= ONE
}

/// Delay-line length in frames: `delay_us * sample_rate / 1_000_000` rounded,
/// at least 1.
pub open spec fn delay_len(delay_us: int, sample_rate: int) -> int {
    let d = (delay_us * sample_rate + 500_000) / 1_000_000;
    if d < 1 {
        1
    } else {
        d
    }
}

/// The feedback gain of echo and reverb: the RT60 gain clamped to `[0, 1]`.
pub open spec fn delay_gain(raw: int) -> int {
    clamp(raw, 0, UNIT as int)
}

/// One step of the reverb lowpass: `0.5 * delayed + 0.5 * prev`.
pub open spec fn smooth(delayed: int, prev: int) -> int {
    div_trunc(LP_COEFF * delayed + (ONE - LP_COEFF) * prev, ONE as int)
}

/// Frame `t` of the engine with delay `d` and feedback `g`: the value written
/// into the delay line, and the lowpass output (0 without the lowpass).
pub open spec fn echo_frame(input: Seq<i32>, d: int, g: int, lowpass: bool, t: int) -> (int, int)
    decreases t,
{
    if t < 0 || d < 1 {
        (0, 0)
    } else {
        let delayed = echo_delayed(input, d, g, lowpass, t);
        let prev = if t >= 1 {
            echo_frame(input, d, g, lowpass, t - 1).1
        } else {
            0
        };
        let lp = if lowpass {
            smooth(delayed, prev)
        } else {
            0
        };
        let fb = if lowpass {
            lp
        } else {
            delayed
        };
        (input[t] * ONE + scale(g, fb), lp)
    }
}

/// What the delay line yields at frame `t`: the value written `d` frames
/// earlier, or silence before that.
pub open spec fn echo_delayed(input: Seq<i32>, d: int, g: int, lowpass: bool, t: int) -> int
    decreases t, 0int,
{
    if d >= 1 && t >= d && t >= 0 {
        echo_frame(input, d, g, lowpass, t - d).0
    } else {
        0
    }
}

/// The engine's output for the whole input.
pub open spec fn echo_output(input: Seq<i32>, d: int, g: int, wet: int, lowpass: bool) -> Seq<int> {
    Seq::new(
        input.len(),
        |t: int| mix(wet, input[t] * ONE, echo_delayed(input, d, g, lowpass, t)),
    )
}

/// The delay-line length for a delay in microseconds at a sample rate.
pub fn delay_length(delay_us: u64, sample_rate: u32) -> (r: u128)
    ensures
        r == delay_len(delay_us as int, sample_rate as int),
        r >= 1,
{
    assert(delay_us * sample_rate + 500_000 < 0x1_0000_0000_0000_0000_0000_0000) by (nonlinear_arith)
        requires delay_us <= 0xffff_ffff_ffff_ffff, sample_rate <= 0xffff_ffff, delay_us >= 0, sample_rate >= 0;
    let d = (delay_us as u128 * sample_rate as u128 + 500_000) / 1_000_000;
    if d < 1 {
        1
    } else {
        d
    }
}

/// The echo/reverb feedback gain from the raw RT60 gain `10^(-3 * delay / decay)`
/// in Q30: clamped to `[0, UNIT]`.
pub fn delay_feedback(raw: i64) -> (r: i64)
    ensures
        r == delay_gain(raw as int),
        0 <= r <= UNIT,
{
    if raw < 0 {
        0
    } else if raw > UNIT {
        UNIT
    } else {
        raw
    }
}

/// Advancing a position by one frame advances its slot by one, modulo `d`.
pub(crate) proof fn lemma_mod_succ(i: int, d: int)
    requires
        i >= 0,
        d >= 1,
    ensures
        (i % d + 1) % d == (i + 1) % d,
{
    lemma_add_mod_noop(i, 1, d);
    if d > 1 {
        lemma_small_mod(1, d as nat);
    } else {
        assert((i % d + 1) % d == 0);
        assert((i + 1) % d == 0);
    }
}

/// Magnitudes grow at most by one full-scale sample per frame.
proof fn lemma_echo_bounds(input: Seq<i32>, d: int, g: int, lowpass: bool, t: int)
    requires
        samples_in_range(input),
        0 <= g <= UNIT,
        d >= 1,
        0 <= t < input.len(),
    ensures
        abs(echo_frame(input, d, g, lowpass, t).0) <= (t + 1) * UNIT,
        abs(echo_frame(input, d, g, lowpass, t).1) <= t * UNIT,
        abs(echo_delayed(input, d, g, lowpass, t)) <= t * UNIT,
    decreases t,
{
    if t >= d {
        lemma_echo_bounds(input, d, g, lowpass, t - d);
    }
    if t >= 1 {
        lemma_echo_bounds(input, d, g, lowpass, t - 1);
    }
    let delayed = echo_delayed(input, d, g, lowpass, t);
    let prev = if t >= 1 {
        echo_frame(input, d, g, lowpass, t - 1).1
    } else {
        0
    };
    let b = t * UNIT;
    assert(abs(LP_COEFF * delayed + (ONE - LP_COEFF) * prev) <= ONE * b);
    lemma_div_trunc_bound(LP_COEFF * delayed + (ONE - LP_COEFF) * prev, b);
    let fb = if lowpass {
        smooth(delayed, prev)
    } else {
        delayed
    };
    lemma_scale_shrinks(g, fb);
    assert(-ONE <= input[t] <= ONE);
    assert(abs(input[t] * ONE) <= UNIT);
}

/// The mix of every frame with a silent delay line.
fn dry_mix(input: &Vec<i32>, wet: i32) -> (output: Vec<i128>)
    ensures
        output@.len() == input@.len(),
        forall|i: int|
            0 <= i < output@.len() ==> output@[i] as int == mix(wet as int, #[trigger] input@[i] * ONE, 0),
{
    let dry = ONE as i128 - wet as i128;
    let mut output: Vec<i128> = Vec::new();
    let mut i: usize = 0;
    while i < input.len()
        invariant
            i <= input@.len(),
            dry == ONE - wet,
            output@.len() == i,
            forall|j: int|
                0 <= j < i ==> output@[j] as int == mix(wet as int, #[trigger] input@[j] * ONE, 0),
        decreases input@.len() - i,
    {
        let x = input[i] as i128 * (ONE as i128);
        proof {
            lemma_mul_bound(dry as int, x as int, 0x1_0000_0000, 0x1_0000_0000_0000_0000);
        }
        output.push(dry * x);
        i = i + 1;
    }
    output
}

/// Applies echo (`lowpass == false`) or reverb (`lowpass == true`) to `input`.
///
/// `gain` is the RT60 feedback gain `10^(-3 * delay_s / decay_s)` in Q30; the
/// engine clamps it to `[0, UNIT]`. `wet` is the Q15 wet share of the mix.
/// The delay line holds Q30 values; output frames are the unrounded mix in
/// Q45 (see `mix`).
/// The output is unclamped: frames may exceed full scale.
pub fn apply_delay_effect(
    input: &Vec<i32>,
    sample_rate: u32,
    wet: i32,
    delay_us: u64,
    gain: i64,
    lowpass: bool,
) -> (output: Vec<i128>)
    requires
        samples_in_range(input@),
    ensures
        output@.len() == input@.len(),
        forall|i: int|
            0 <= i < output@.len() ==> output@[i] as int == #[trigger] echo_output(
                input@,
                delay_len(delay_us as int, sample_rate as int),
                delay_gain(gain as int),
                wet as int,
                lowpass,
            )[i],
{
    let d64 = delay_length(delay_us, sample_rate);
    if d64 > input.len() as u128 {
        // No frame is read back before the input ends.
        return dry_mix(input, wet);
    }
    let d = d64 as usize;
    let g = delay_feedback(gain);
    let ghost dd = d as int;
    let ghost gg = g as int;
    let w = wet as i128;
    let dry = ONE as i128 - w;
    let mut line: Vec<i128> = vec![0i128; d];
    let mut output: Vec<i128> = Vec::new();
    let mut write_pos: usize = 0;
    let mut prev_lp: i128 = 0;
    let n = input.len();
    let mut i: usize = 0;
    while i < n
        invariant
            n == input@.len(),
            samples_in_range(input@),
            dd == delay_len(delay_us as int, sample_rate as int),
            dd == d,
            dd >= 1,
            gg == g,
            gg == delay_gain(gain as int),
            0 <= gg <= UNIT,
            dry == ONE - w,
            w == wet,
            i <= n,
            line@.len() == dd,
            write_pos as int == (i as int) % dd,
            forall|t: int|
                0 <= t < i && i - dd <= t ==> #[trigger] line@[t % dd] == echo_frame(
                    input@,
                    dd,
                    gg,
                    lowpass,
                    t,
                ).0,
            forall|p: int| i <= p < dd ==> #[trigger] line@[p] == 0,
            prev_lp == (if i == 0 {
                0
            } else {
                echo_frame(input@, dd, gg, lowpass, i - 1).1
            }),
            output@.len() == i,
            forall|j: int|
                0 <= j < i ==> output@[j] as int == #[trigger] echo_output(
                    input@,
                    dd,
                    gg,
                    wet as int,
                    lowpass,
                )[j],
        decreases n - i,
    {
        let ghost ii = i as int;
        let inp = input[i] as i128 * (ONE as i128);
        let delayed = line[write_pos];
        proof {
            if ii >= dd {
                lemma_mod_sub_multiples_vanish(ii, dd);
                assert(line@[(ii - dd) % dd] == echo_frame(input@, dd, gg, lowpass, ii - dd).0);
            } else {
                lemma_small_mod(ii as nat, dd as nat);
                assert(line@[ii] == 0);
            }
            assert(delayed == echo_delayed(input@, dd, gg, lowpass, ii));
            lemma_echo_bounds(input@, dd, gg, lowpass, ii);
            if ii >= 1 {
                lemma_echo_bounds(input@, dd, gg, lowpass, ii - 1);
            }
            assert(ii < 0x1_0000_0000_0000_0000);
            assert(-ONE <= input@[ii] <= ONE);
            lemma_mul_bound(dry as int, inp as int, 0x1_0000_0000, UNIT as int);
            lemma_mul_bound(w as int, delayed as int, 0x8000_0000, 0x1_0000_0000_0000_0000 * UNIT);
        }
        let out = dry * inp + w * delayed;
        let fb = if lowpass {
            let lp = ((LP_COEFF as i128) * delayed + ((ONE - LP_COEFF) as i128) * prev_lp) / (
            ONE as i128);
            prev_lp = lp;
            lp
        } else {
            delayed
        };
        proof {
            lemma_mul_bound(g as int, fb as int, UNIT as int, 0x1_0000_0000_0000_0000 * UNIT);
            lemma_scale_shrinks(gg, fb as int);
        }
        let value = inp + mul_gain(g as i128, fb);
        assert(value == echo_frame(input@, dd, gg, lowpass, ii).0);
        line.set(write_pos, value);
        output.push(out);
        proof {
            lemma_mod_succ(ii, dd);
            assert forall|t: int| 0 <= t < ii + 1 && ii + 1 - dd <= t implies #[trigger] line@[t
                % dd] == echo_frame(input@, dd, gg, lowpass, t).0 by {
                if t < ii {
                    lemma_mod_distinct(t, ii, dd);
                }
            }
            assert forall|p: int| ii + 1 <= p < dd implies #[trigger] line@[p] == 0 by {
                lemma_small_mod(ii as nat, dd as nat);
            }
        }
        write_pos = (write_pos + 1) % d;
        i = i + 1;
    }
    output
}

/// The input is a full-scale impulse at frame `k` and silent elsewhere.
pub open spec fn is_impulse(input: Seq<i32>, k: int) -> bool {
    &&& 0 <= k < input.len()
    &&& input[k] == ONE
    &&& forall|j: int| 0 <= j < input.len() && j != k ==> #[trigger] input[j] == 0
}

/// Before the first non-silent frame the delay line holds only silence.
proof fn lemma_silent_prefix(input: Seq<i32>, d: int, g: int, lowpass: bool, k: int, t: int)
    requires
        d >= 1,
        k <= input.len(),
        forall|j: int| 0 <= j < k ==> #[trigger] input[j] == 0,
        t < k,
    ensures
        echo_frame(input, d, g, lowpass, t) == (0int, 0int),
        echo_delayed(input, d, g, lowpass, t) == 0,
    decreases t,
{
    if t >= 0 {
        if t >= d {
            lemma_silent_prefix(input, d, g, lowpass, k, t - d);
        }
        if t >= 1 {
            lemma_silent_prefix(input, d, g, lowpass, k, t - 1);
        }
        lemma_div_trunc_bound(0, 0);
        assert(input[t] == 0);
        assert(g * 0 == 0);
        assert(scale(g, 0) == 0);
        assert(smooth(0, 0) == 0);
        assert(echo_delayed(input, d, g, lowpass, t) == 0);
        assert(echo_frame(input, d, g, lowpass, t).1 == 0);
        assert(echo_frame(input, d, g, lowpass, t).0 == 0);
    }
}

/// With `wet == 0` the output is the input, frame for frame (at the Q45
/// scale of the mix: each frame is `ONE * UNIT` times its Q15 input).
pub proof fn lemma_delay_dry_identity(
    input: Seq<i32>,
    sample_rate: u32,
    delay_us: u64,
    gain: i64,
    lowpass: bool,
)
    ensures
        echo_output(
            input,
            delay_len(delay_us as int, sample_rate as int),
            delay_gain(gain as int),
            0,
            lowpass,
        ) =~= input.map_values(|x: i32| UNIT * x),
{
    assert forall|x: int, y: int| #[trigger] mix(0, x, y) == ONE * x by {}
    assert forall|x: i32| #[trigger] (ONE * (x * ONE)) == UNIT * x by {}
}

/// Silence in gives silence out, whatever the parameters.
pub proof fn lemma_delay_silence(
    input: Seq<i32>,
    sample_rate: u32,
    wet: i32,
    delay_us: u64,
    gain: i64,
    lowpass: bool,
)
    requires
        forall|j: int| 0 <= j < input.len() ==> #[trigger] input[j] == 0,
    ensures
        forall|t: int|
            0 <= t < input.len() ==> #[trigger] echo_output(
                input,
                delay_len(delay_us as int, sample_rate as int),
                delay_gain(gain as int),
                wet as int,
                lowpass,
            )[t] == 0,
{
    let d = delay_len(delay_us as int, sample_rate as int);
    let g = delay_gain(gain as int);
    assert forall|t: int| 0 <= t < input.len() implies #[trigger] echo_output(
        input,
        d,
        g,
        wet as int,
        lowpass,
    )[t] == 0 by {
        lemma_silent_prefix(input, d, g, lowpass, input.len() as int, t);
        assert(input[t] == 0);
        assert((ONE - wet) * 0 == 0 && wet * 0 == 0);
        lemma_div_trunc_bound(0, 0);
    }
}

/// An impulse at frame `k` comes out dry at `k` and, `d` frames later, once
/// through the delay line at the wet level.
pub proof fn lemma_echo_timing(
    input: Seq<i32>,
    k: int,
    sample_rate: u32,
    wet: i32,
    delay_us: u64,
    gain: i64,
    lowpass: bool,
)
    requires
        is_impulse(input, k),
    ensures
        ({
            let d = delay_len(delay_us as int, sample_rate as int);
            let out = echo_output(input, d, delay_gain(gain as int), wet as int, lowpass);
            &&& out[k] == (ONE - wet) * UNIT
            &&& k + d < input.len() ==> out[k + d] == wet * UNIT
        }),
{
    let d = delay_len(delay_us as int, sample_rate as int);
    let g = delay_gain(gain as int);
    lemma_silent_prefix(input, d, g, lowpass, k, k - 1);
    lemma_silent_prefix(input, d, g, lowpass, k, k - d);
    assert(echo_delayed(input, d, g, lowpass, k) == 0);
    assert(smooth(0, 0) == 0) by {
        lemma_div_trunc_bound(0, 0);
    }
    lemma_scale_shrinks(g, 0);
    assert(echo_frame(input, d, g, lowpass, k).0 == UNIT);
    assert(wet * 0 == 0);
    lemma_div_trunc_bound(0, 0);
    if k + d < input.len() {
        assert(input[k + d] == 0);
        assert((ONE - wet) * 0 == 0);
    }
}

/// Without the lowpass, an impulse leaves in the delay line values that lie
/// in `[0, UNIT]` and, after the impulse, shrink each time they pass through.
proof fn lemma_impulse_frames(input: Seq<i32>, k: int, d: int, g: int, t: int)
    requires
        is_impulse(input, k),
        d >= 1,
        0 <= g <= UNIT,
        0 <= t < input.len(),
    ensures
        0 <= echo_frame(input, d, g, false, t).0 <= UNIT,
        0 <= echo_delayed(input, d, g, false, t) <= UNIT,
        t > k ==> echo_frame(input, d, g, false, t).0 <= echo_delayed(input, d, g, false, t),
        t < k ==> echo_frame(input, d, g, false, t).0 == 0,
        t <= k ==> echo_delayed(input, d, g, false, t) == 0,
    decreases t,
{
    if t >= d {
        lemma_impulse_frames(input, k, d, g, t - d);
    }
    let delayed = echo_delayed(input, d, g, false, t);
    lemma_scale_shrinks(g, delayed);
    if t != k {
        assert(input[t] == 0);
    }
}

/// Echoes of an impulse never grow: without the lowpass, for gains and wet
/// levels in `[0, 1]`, every frame after the impulse is at least as loud as
/// the frame one delay later, and no frame is negative.
pub proof fn lemma_echo_decay(
    input: Seq<i32>,
    k: int,
    sample_rate: u32,
    wet: i32,
    delay_us: u64,
    gain: i64,
)
    requires
        is_impulse(input, k),
        0 <= wet <= ONE,
    ensures
        ({
            let d = delay_len(delay_us as int, sample_rate as int);
            let out = echo_output(input, d, delay_gain(gain as int), wet as int, false);
            forall|t: int|
                k < t && t + d < input.len() ==> 0 <= #[trigger] out[t + d] <= out[t]
        }),
{
    let d = delay_len(delay_us as int, sample_rate as int);
    let g = delay_gain(gain as int);
    let out = echo_output(input, d, g, wet as int, false);
    assert forall|t: int| k < t && t + d < input.len() implies 0 <= #[trigger] out[t + d]
        <= out[t] by {
        lemma_impulse_frames(input, k, d, g, t);
        lemma_impulse_frames(input, k, d, g, t + d);
        assert(input[t] == 0);
        assert(input[t + d] == 0);
        assert((ONE - wet) * 0 == 0);
        lemma_div_trunc_bound(0, 0);
        let a = echo_delayed(input, d, g, false, t + d);
        let b = echo_delayed(input, d, g, false, t);
        assert(0 <= wet * a <= wet * b) by (nonlinear_arith)
            requires 0 <= wet, 0 <= a <= b;
    }
}

/// With the lowpass, an impulse leaves in the delay line and the filter
/// only values in `[0, UNIT]`.
proof fn lemma_reverb_impulse_frames(input: Seq<i32>, k: int, d: int, g: int, t: int)
    requires
        is_impulse(input, k),
        d >= 1,
        0 <= g <= UNIT,
        0 <= t < input.len(),
    ensures
        0 <= echo_frame(input, d, g, true, t).0 <= UNIT,
        0 <= echo_frame(input, d, g, true, t).1 <= UNIT,
        0 <= echo_delayed(input, d, g, true, t) <= UNIT,
    decreases t,
{
    if t >= d {
        lemma_reverb_impulse_frames(input, k, d, g, t - d);
    }
    if t >= 1 {
        lemma_reverb_impulse_frames(input, k, d, g, t - 1);
    }
    let delayed = echo_delayed(input, d, g, true, t);
    let prev = if t >= 1 {
        echo_frame(input, d, g, true, t - 1).1
    } else {
        0
    };
    let x = LP_COEFF * delayed + (ONE - LP_COEFF) * prev;
    assert(0 <= x <= ONE * UNIT);
    assert(0 <= x / (ONE as int) <= UNIT) by (nonlinear_arith)
        requires 0 <= x <= 32768 * 0x4000_0000;
    let lp = smooth(delayed, prev);
    lemma_scale_shrinks(g, lp);
    if t == k {
        lemma_silent_prefix(input, d, g, true, k, k - 1);
        lemma_silent_prefix(input, d, g, true, k, k - d);
        assert(delayed == 0);
        assert(prev == 0);
        lemma_div_trunc_bound(0, 0);
        assert(lp == 0);
    } else {
        assert(input[t] == 0);
    }
}

/// Reverb never builds up: for gains and wet levels in `[0, 1]`, no frame
/// after an impulse is negative or louder than the first echo, which comes
/// `d` frames after the impulse at the wet level.
pub proof fn lemma_reverb_bounded(
    input: Seq<i32>,
    k: int,
    sample_rate: u32,
    wet: i32,
    delay_us: u64,
    gain: i64,
)
    requires
        is_impulse(input, k),
        0 <= wet <= ONE,
    ensures
        ({
            let d = delay_len(delay_us as int, sample_rate as int);
            let out = echo_output(input, d, delay_gain(gain as int), wet as int, true);
            &&& k + d < input.len() ==> out[k + d] == wet * UNIT
            &&& forall|t: int| k < t < input.len() ==> 0 <= #[trigger] out[t] <= wet * UNIT
        }),
{
    let d = delay_len(delay_us as int, sample_rate as int);
    let g = delay_gain(gain as int);
    let out = echo_output(input, d, g, wet as int, true);
    lemma_echo_timing(input, k, sample_rate, wet, delay_us, gain, true);
    assert forall|t: int| k < t < input.len() implies 0 <= #[trigger] out[t] <= wet * UNIT by {
        lemma_reverb_impulse_frames(input, k, d, g, t);
        assert(input[t] == 0);
        let a = echo_delayed(input, d, g, true, t);
        assert(0 <= wet * a <= wet * UNIT) by (nonlinear_arith)
            requires 0 <= wet, 0 <= a <= 0x4000_0000;
    }
}

/// The second echo of an impulse is the first one scaled by the feedback
/// gain: without the lowpass, `d` frames after the first echo (at the wet
/// level) comes `wet * g`, with `g` the clamped Q30 gain in `[0, UNIT]`.
pub proof fn lemma_echo_second(
    input: Seq<i32>,
    k: int,
    sample_rate: u32,
    wet: i32,
    delay_us: u64,
    gain: i64,
)
    requires
        is_impulse(input, k),
    ensures
        ({
            let d = delay_len(delay_us as int, sample_rate as int);
            let g = delay_gain(gain as int);
            let out = echo_output(input, d, g, wet as int, false);
            &&& 0 <= g <= UNIT
            &&& k + 2 * d < input.len() ==> out[k + 2 * d] == wet * g
        }),
{
    let d = delay_len(delay_us as int, sample_rate as int);
    let g = delay_gain(gain as int);
    if k + 2 * d < input.len() {
        lemma_silent_prefix(input, d, g, false, k, k - d);
        assert(echo_delayed(input, d, g, false, k) == 0);
        lemma_scale_shrinks(g, 0);
        assert(input[k] == ONE);
        assert(echo_frame(input, d, g, false, k).0 == UNIT);
        assert(echo_delayed(input, d, g, false, k + d) == UNIT);
        assert(input[k + d] == 0);
        lemma_scale_unit(g);
        assert(echo_frame(input, d, g, false, k + d).0 == g);
        assert(echo_delayed(input, d, g, false, k + 2 * d) == g);
        assert(input[k + 2 * d] == 0);
        assert((ONE - wet) * 0 == 0);
    }
}

} // verus!
