//! The chorus engine: a circular delay line read at a slowly swept,
//! fractional offset with linear interpolation, and light feedback.
use vstd::prelude::*;
use vstd::arithmetic::div_mod::{
    lemma_add_mod_noop, lemma_fundamental_div_mod, lemma_fundamental_div_mod_converse,
    lemma_mod_bound, lemma_small_mod,
};
use crate::fixed::{
    ONE, UNIT, abs, clamp, div_trunc, mix, scale, mul_gain, lemma_div_trunc_bound, lemma_mod_distinct,
    lemma_mul_bound, lemma_scale_shrinks,
};
use crate::delay::{lemma_mod_succ, samples_in_range};

verus! {

/// One frame in the Q16 units of delay-line positions.
pub const FRAC_ONE: u64 = 65536;

/// Largest chorus feedback gain: 0.3 in Q30, rounded to the nearest step
/// (within 2e-10 of 0.3).
pub const CHORUS_GAIN_MAX: i64 = 322_122_547;

/// A duration in microseconds as Q16 frames at a sample rate, at least one frame.
pub open spec fn frames_q16(us: int, sample_rate: int) -> int {
    let f = us * sample_rate * FRAC_ONE / 1_000_000;
    if f < FRAC_ONE {
        FRAC_ONE as int
    } else {
        f
    }
}

/// Delay-line length in frames: the base delay plus twice the depth, rounded down.
pub open spec fn chorus_len(base: int, depth: int) -> int {
    (base + 2 * depth) / (FRAC_ONE as int)
}

/// The chorus feedback gain: the RT60 gain clamped to `[0, 0.3]`.
pub open spec fn chorus_gain(raw: int) -> int {
    clamp(raw, 0, CHORUS_GAIN_MAX as int)
}

/// Every modulation value lies in `[0, 1]`.
pub open spec fn modulation_in_range(m: Seq<i32>) -> bool {
    forall|i: int| 0 <= i < m.len() ==> 0 <= #[trigger] m[i] <= ONE
}

/// The read offset in Q16 frames for the modulation value `m`.
pub open spec fn chorus_offset(base: int, depth: int, m: int) -> int {
    base + m * depth / (ONE as int)
}

/// Linear interpolation between `a` and `b` at the Q16 fraction `f`.
pub open spec fn interp(a: int, b: int, f: int) -> int {
    div_trunc(a * (FRAC_ONE - f) + b * f, FRAC_ONE as int)
}

/// The Q16 time, counted from frame 0, that frame `t` reads: its offset
/// before `t`.
pub open spec fn tap_time(mods: Seq<i32>, base: int, depth: int, t: int) -> int {
    t * FRAC_ONE - chorus_offset(base, depth, mods[t] as int)
}

/// The value written into the delay line at frame `s`: the input plus the
/// feedback of what frame `s` read. Silence before frame 0.
pub open spec fn chorus_written(
    input: Seq<i32>,
    mods: Seq<i32>,
    base: int,
    depth: int,
    g: int,
    s: int,
) -> int
    decreases s, 2int,
{
    if s < 0 {
        0
    } else {
        input[s] * ONE + scale(g, chorus_tap(input, mods, base, depth, g, s))
    }
}

/// What frame `t` sees of frame `s`: its written value if `s` came earlier,
/// silence otherwise.
pub open spec fn chorus_past(
    input: Seq<i32>,
    mods: Seq<i32>,
    base: int,
    depth: int,
    g: int,
    s: int,
    t: int,
) -> int
    decreases t, 0int,
{
    if 0 <= s < t {
        chorus_written(input, mods, base, depth, g, s)
    } else {
        0
    }
}

/// What the delay line yields at frame `t`: the written signal at the tap
/// time, interpolated linearly between the two whole frames around it.
pub open spec fn chorus_tap(
    input: Seq<i32>,
    mods: Seq<i32>,
    base: int,
    depth: int,
    g: int,
    t: int,
) -> int
    decreases t, 1int,
{
    let x = tap_time(mods, base, depth, t);
    let s1 = x / (FRAC_ONE as int);
    let f = x % (FRAC_ONE as int);
    if f == 0 {
        chorus_past(input, mods, base, depth, g, s1, t)
    } else {
        interp(
            chorus_past(input, mods, base, depth, g, s1, t),
            chorus_past(input, mods, base, depth, g, s1 + 1, t),
            f,
        )
    }
}

/// The engine's output for the whole input.
pub open spec fn chorus_output(
    input: Seq<i32>,
    mods: Seq<i32>,
    base: int,
    depth: int,
    g: int,
    wet: int,
) -> Seq<int> {
    Seq::new(
        input.len(),
        |t: int| mix(wet, input[t] * ONE, chorus_tap(input, mods, base, depth, g, t)),
    )
}

/// A duration in microseconds as Q16 frames at a sample rate.
pub fn frames_of_us(us: u64, sample_rate: u32) -> (r: u128)
    ensures
        r == frames_q16(us as int, sample_rate as int),
        r < 0x1_0000_0000_0000_0000_0000_0000_0000,
{
    assert(us * sample_rate * FRAC_ONE < 0x1_0000_0000_0000_0000_0000_0000_0000) by (nonlinear_arith)
        requires 0 <= us <= 0xffff_ffff_ffff_ffff, 0 <= sample_rate <= 0xffff_ffff;
    let f = us as u128 * sample_rate as u128 * (FRAC_ONE as u128) / 1_000_000;
    if f < FRAC_ONE as u128 {
        FRAC_ONE as u128
    } else {
        f
    }
}

/// The chorus feedback gain from the raw RT60 gain in Q30: clamped to `[0, 0.3]`.
pub fn chorus_feedback(raw: i64) -> (r: i64)
    ensures
        r == chorus_gain(raw as int),
        0 <= r <= CHORUS_GAIN_MAX,
{
    if raw < 0 {
        0
    } else if raw > CHORUS_GAIN_MAX {
        CHORUS_GAIN_MAX
    } else {
        raw
    }
}

/// Linear interpolation blends the two neighbouring samples: the result lies
/// between them, and equals the first at fraction 0.
pub proof fn lemma_interp_between(a: int, b: int, f: int)
    requires
        0 <= f < FRAC_ONE,
    ensures
        ({
            let lo = if a <= b { a } else { b };
            let hi = if a <= b { b } else { a };
            lo <= interp(a, b, f) <= hi
        }),
        f == 0 ==> interp(a, b, f) == a,
{
    let lo = if a <= b { a } else { b };
    let hi = if a <= b { b } else { a };
    let x = a * (FRAC_ONE - f) + b * f;
    assert(65536 * lo <= x <= 65536 * hi) by (nonlinear_arith)
        requires
            x == a * (65536 - f) + b * f,
            0 <= f < 65536,
            lo <= a <= hi,
            lo <= b <= hi,
    ;
    if x >= 0 {
        assert(x / 65536 <= hi) by (nonlinear_arith)
            requires x <= 65536 * hi, x >= 0;
        assert(x / 65536 >= lo) by (nonlinear_arith)
            requires 65536 * lo <= x, x >= 0;
    } else {
        assert((-x) / 65536 <= -lo) by (nonlinear_arith)
            requires -x <= -65536 * lo, -x >= 0;
        assert((-x) / 65536 >= -hi) by (nonlinear_arith)
            requires -65536 * hi <= -x, -x >= 0;
    }
    if f == 0 {
        assert(a * 65536 / 65536 == a) by (nonlinear_arith);
        assert((-(a * 65536)) / 65536 == -a) by (nonlinear_arith);
    }
}

/// Every chorus read blends the two whole frames around its tap time: it
/// never leaves the range between them.
pub proof fn lemma_chorus_tap_between(
    input: Seq<i32>,
    mods: Seq<i32>,
    base: int,
    depth: int,
    g: int,
    t: int,
)
    ensures
        ({
            let s1 = tap_time(mods, base, depth, t) / (FRAC_ONE as int);
            let a = chorus_past(input, mods, base, depth, g, s1, t);
            let b = chorus_past(input, mods, base, depth, g, s1 + 1, t);
            let v = chorus_tap(input, mods, base, depth, g, t);
            &&& (a <= b ==> a <= v <= b)
            &&& (b <= a ==> b <= v <= a)
        }),
{
    let x = tap_time(mods, base, depth, t);
    lemma_mod_bound(x, FRAC_ONE as int);
    let s1 = x / (FRAC_ONE as int);
    lemma_interp_between(
        chorus_past(input, mods, base, depth, g, s1, t),
        chorus_past(input, mods, base, depth, g, s1 + 1, t),
        x % (FRAC_ONE as int),
    );
}

/// Magnitudes grow at most by one full-scale sample per frame.
proof fn lemma_chorus_bounds(
    input: Seq<i32>,
    mods: Seq<i32>,
    base: int,
    depth: int,
    g: int,
    t: int,
)
    requires
        samples_in_range(input),
        0 <= g <= UNIT,
        0 <= t < input.len(),
    ensures
        abs(chorus_written(input, mods, base, depth, g, t)) <= (t + 1) * UNIT,
        abs(chorus_tap(input, mods, base, depth, g, t)) <= t * UNIT,
    decreases t,
{
    let x = tap_time(mods, base, depth, t);
    let s1 = x / (FRAC_ONE as int);
    if 0 <= s1 < t {
        lemma_chorus_bounds(input, mods, base, depth, g, s1);
    }
    if 0 <= s1 + 1 < t {
        lemma_chorus_bounds(input, mods, base, depth, g, s1 + 1);
    }
    let a = chorus_past(input, mods, base, depth, g, s1, t);
    let b = chorus_past(input, mods, base, depth, g, s1 + 1, t);
    assert(abs(a) <= t * UNIT);
    assert(abs(b) <= t * UNIT);
    lemma_mod_bound(x, FRAC_ONE as int);
    lemma_interp_between(a, b, x % (FRAC_ONE as int));
    let v = chorus_tap(input, mods, base, depth, g, t);
    lemma_scale_shrinks(g, v);
    assert(-ONE <= input[t] <= ONE);
    assert(abs(input[t] * ONE) <= UNIT);
}

/// Silence in leaves the line silent.
proof fn lemma_chorus_silent_frames(
    input: Seq<i32>,
    mods: Seq<i32>,
    base: int,
    depth: int,
    g: int,
    t: int,
)
    requires
        forall|j: int| 0 <= j < input.len() ==> #[trigger] input[j] == 0,
        0 <= t < input.len(),
    ensures
        chorus_written(input, mods, base, depth, g, t) == 0,
        chorus_tap(input, mods, base, depth, g, t) == 0,
    decreases t,
{
    let x = tap_time(mods, base, depth, t);
    let s1 = x / (FRAC_ONE as int);
    if 0 <= s1 < t {
        lemma_chorus_silent_frames(input, mods, base, depth, g, s1);
    }
    if 0 <= s1 + 1 < t {
        lemma_chorus_silent_frames(input, mods, base, depth, g, s1 + 1);
    }
    lemma_mod_bound(x, FRAC_ONE as int);
    lemma_interp_between(0, 0, x % (FRAC_ONE as int));
    assert(input[t] == 0);
    assert(g * 0 == 0);
    lemma_div_trunc_bound(0, 0);
}

/// Applies chorus to `input`.
///
/// `modulation[i]` is the oscillator's value `(sin(phase) + 1) / 2` at frame
/// `i`, in Q15. `gain` is the RT60 feedback gain in Q30; the engine clamps it
/// to `[0, 0.3]`. The line holds Q30 values; output frames are the unrounded
/// mix in Q45 (see `mix`),
/// unclamped. The delay line holds `chorus_len` frames, more than the largest
/// offset, so every read finds the frame that the model names; where the
/// input is shorter, it holds one slot per input frame, which no read outruns.
pub fn apply_chorus_effect(
    input: &Vec<i32>,
    sample_rate: u32,
    wet: i32,
    delay_us: u64,
    gain: i64,
    modulation: &Vec<i32>,
    depth_us: u64,
) -> (output: Vec<i128>)
    requires
        samples_in_range(input@),
        modulation@.len() == input@.len(),
        modulation_in_range(modulation@),
    ensures
        output@.len() == input@.len(),
        ({
            let base = frames_q16(delay_us as int, sample_rate as int);
            let depth = frames_q16(depth_us as int, sample_rate as int);
            forall|i: int|
                0 <= i < output@.len() ==> output@[i] as int == #[trigger] chorus_output(
                    input@,
                    modulation@,
                    base,
                    depth,
                    chorus_gain(gain as int),
                    wet as int,
                )[i]
        }),
{
    let n = input.len();
    if n == 0 {
        return Vec::new();
    }
    let base = frames_of_us(delay_us, sample_rate);
    let depth = frames_of_us(depth_us, sample_rate);
    let size_u = (base + 2 * depth) / (FRAC_ONE as u128);
    // A line longer than the input is never read past its first `n` slots.
    let cap: usize = if size_u > n as u128 {
        n
    } else {
        size_u as usize
    };
    let ghost bb = base as int;
    let ghost dp = depth as int;
    let ghost ss = chorus_len(bb, dp);
    let ghost cc = cap as int;
    let ghost fq = FRAC_ONE as int;
    proof {
        lemma_fundamental_div_mod(bb + 2 * dp, FRAC_ONE as int);
        lemma_mod_bound(bb + 2 * dp, FRAC_ONE as int);
        assert(ss * fq >= base + depth);
    }
    let g = chorus_feedback(gain);
    let ghost gg = g as int;
    let w = wet as i128;
    let dry = ONE as i128 - w;
    let mut line: Vec<i128> = vec![0i128; cap];
    let mut output: Vec<i128> = Vec::new();
    let mut write_pos: usize = 0;
    let mut i: usize = 0;
    while i < n
        invariant
            n == input@.len(),
            n == modulation@.len(),
            samples_in_range(input@),
            modulation_in_range(modulation@),
            bb == base,
            bb == frames_q16(delay_us as int, sample_rate as int),
            dp == depth,
            dp == frames_q16(depth_us as int, sample_rate as int),
            base < 0x1_0000_0000_0000_0000_0000_0000_0000,
            depth < 0x1_0000_0000_0000_0000_0000_0000_0000,
            base >= FRAC_ONE,
            depth >= FRAC_ONE,
            fq == FRAC_ONE,
            ss * fq >= base + depth,
            cc == cap,
            cc >= 1,
            cc == ss || cc == n,
            gg == g,
            gg == chorus_gain(gain as int),
            0 <= gg <= UNIT,
            dry == ONE - w,
            w == wet,
            i <= n,
            line@.len() == cc,
            write_pos as int == (i as int) % cc,
            forall|s: int|
                0 <= s < i && i - cc <= s ==> #[trigger] line@[s % cc] as int == chorus_written(
                    input@,
                    modulation@,
                    bb,
                    dp,
                    gg,
                    s,
                ),
            output@.len() == i,
            forall|j: int|
                0 <= j < i ==> output@[j] as int == #[trigger] chorus_output(
                    input@,
                    modulation@,
                    bb,
                    dp,
                    gg,
                    wet as int,
                )[j],
        decreases n - i,
    {
        let ghost ii = i as int;
        assert(-ONE <= input@[ii] <= ONE);
        let inp = input[i] as i128 * (ONE as i128);
        assert(abs(inp as int) <= UNIT);
        let m = modulation[i] as u128;
        proof {
            assert(0 <= modulation@[ii] <= ONE);
            assert(m * depth <= ONE * depth) by (nonlinear_arith)
                requires 0 <= m <= 32768, 0 <= depth;
            assert(m * depth / 32768 <= depth) by (nonlinear_arith)
                requires 0 <= m * depth <= 32768 * depth;
        }
        let offset = base + m * depth / (ONE as u128);
        let ghost off = chorus_offset(bb, dp, modulation@[ii] as int);
        assert(offset == off);
        assert(i < 0x1_0000_0000_0000_0000);
        assert(i * FRAC_ONE < 0x1_0000_0000_0000_0000_0000_0000) by (nonlinear_arith)
            requires 0 <= i < 0x1_0000_0000_0000_0000;
        let xi = (i as i128) * (FRAC_ONE as i128) - (offset as i128);
        let ghost x = tap_time(modulation@, bb, dp, ii);
        let ghost s1 = x / fq;
        let ghost fx = x % fq;
        proof {
            assert(x == xi);
            lemma_fundamental_div_mod(x, fq);
            lemma_mod_bound(x, fq);
            assert(s1 < ii) by (nonlinear_arith)
                requires x == 65536 * s1 + fx, 0 <= fx, x <= (ii - 1) * 65536;
            assert(s1 >= ii - ss) by (nonlinear_arith)
                requires x == 65536 * s1 + fx, fx < 65536, x >= (ii - ss) * 65536;
            assert(fx != 0 ==> s1 + 1 < ii) by (nonlinear_arith)
                requires x == 65536 * s1 + fx, 0 <= fx, x <= (ii - 1) * 65536;
            if s1 >= 0 {
                lemma_chorus_bounds(input@, modulation@, bb, dp, gg, s1);
            }
            if s1 + 1 >= 0 && s1 + 1 < ii {
                lemma_chorus_bounds(input@, modulation@, bb, dp, gg, s1 + 1);
            }
            lemma_chorus_bounds(input@, modulation@, bb, dp, gg, ii);
            assert(ii < 0x1_0000_0000_0000_0000);
        }
        let (a, b, f) = if xi >= 0 {
            let q1 = xi / (FRAC_ONE as i128);
            let f = xi % (FRAC_ONE as i128);
            assert(q1 == s1 && f == fx);
            let p1 = q1 as usize;
            let a = line[p1 % cap];
            let b = if f != 0 {
                line[(p1 + 1) % cap]
            } else {
                0
            };
            (a, b, f)
        } else if xi > -(FRAC_ONE as i128) {
            proof {
                lemma_fundamental_div_mod_converse(x, fq, -1, x + fq);
            }
            let f = xi + FRAC_ONE as i128;
            proof {
                lemma_small_mod(0, cc as nat);
            }
            (0, line[0], f)
        } else {
            proof {
                assert(fx == 0 || s1 + 1 < 0) by (nonlinear_arith)
                    requires x == 65536 * s1 + fx, 0 <= fx < 65536, x <= -65536;
                lemma_interp_between(0, 0, fx);
            }
            (0, 0, 0)
        };
        proof {
            assert(abs(a as int) <= ii * UNIT);
            assert(abs(b as int) <= ii * UNIT);
            assert(0 <= f < FRAC_ONE);
            lemma_mul_bound(a as int, (FRAC_ONE - f) as int, 0x1_0000_0000_0000_0000 * UNIT, FRAC_ONE as int);
            lemma_mul_bound(b as int, f as int, 0x1_0000_0000_0000_0000 * UNIT, FRAC_ONE as int);
        }
        let delayed = if f == 0 {
            a
        } else {
            (a * ((FRAC_ONE as i128) - f) + b * f) / (FRAC_ONE as i128)
        };
        proof {
            assert(delayed == chorus_tap(input@, modulation@, bb, dp, gg, ii));
            assert(-ONE <= input@[ii] <= ONE);
            lemma_mul_bound(dry as int, inp as int, 0x1_0000_0000, UNIT as int);
            lemma_mul_bound(w as int, delayed as int, 0x8000_0000, 0x1_0000_0000_0000_0000 * UNIT);
            lemma_mul_bound(g as int, delayed as int, UNIT as int, 0x1_0000_0000_0000_0000 * UNIT);
            lemma_scale_shrinks(gg, delayed as int);
        }
        let out = dry * inp + w * delayed;
        let value = inp + mul_gain(g as i128, delayed);
        assert(value == chorus_written(input@, modulation@, bb, dp, gg, ii));
        proof {
            lemma_mod_bound(ii, cc);
        }
        line.set(write_pos, value);
        output.push(out);
        proof {
            lemma_mod_succ(ii, cc);
            assert forall|s: int| 0 <= s < ii + 1 && ii + 1 - cc <= s implies #[trigger] line@[s
                % cc] as int == chorus_written(input@, modulation@, bb, dp, gg, s) by {
                if s < ii {
                    lemma_mod_distinct(s, ii, cc);
                }
            }
        }
        write_pos = (write_pos + 1) % cap;
        i = i + 1;
    }
    output
}

/// With `wet == 0` the output is the input, frame for frame (at the Q45
/// scale of the mix: each frame is `ONE * UNIT` times its Q15 input).
pub proof fn lemma_chorus_dry_identity(
    input: Seq<i32>,
    modulation: Seq<i32>,
    sample_rate: u32,
    delay_us: u64,
    gain: i64,
    depth_us: u64,
)
    ensures
        chorus_output(
            input,
            modulation,
            frames_q16(delay_us as int, sample_rate as int),
            frames_q16(depth_us as int, sample_rate as int),
            chorus_gain(gain as int),
            0,
        ) =~= input.map_values(|x: i32| UNIT * x),
{
    assert forall|x: int, y: int| #[trigger] mix(0, x, y) == ONE * x by {}
    assert forall|x: i32| #[trigger] (ONE * (x * ONE)) == UNIT * x by {}
}

/// Silence in gives silence out, whatever the parameters and modulation.
pub proof fn lemma_chorus_silence(
    input: Seq<i32>,
    modulation: Seq<i32>,
    sample_rate: u32,
    wet: i32,
    delay_us: u64,
    gain: i64,
    depth_us: u64,
)
    requires
        forall|j: int| 0 <= j < input.len() ==> #[trigger] input[j] == 0,
    ensures
        ({
            let out = chorus_output(
                input,
                modulation,
                frames_q16(delay_us as int, sample_rate as int),
                frames_q16(depth_us as int, sample_rate as int),
                chorus_gain(gain as int),
                wet as int,
            );
            forall|t: int| 0 <= t < input.len() ==> #[trigger] out[t] == 0
        }),
{
    let base = frames_q16(delay_us as int, sample_rate as int);
    let depth = frames_q16(depth_us as int, sample_rate as int);
    let g = chorus_gain(gain as int);
    assert forall|t: int| 0 <= t < input.len() implies #[trigger] chorus_output(
        input,
        modulation,
        base,
        depth,
        g,
        wet as int,
    )[t] == 0 by {
        lemma_chorus_silent_frames(input, modulation, base, depth, g, t);
        assert(input[t] == 0);
        assert((ONE - wet) * 0 == 0 && wet * 0 == 0);
    }
}

/// A constant input of level `a > 0` keeps every written value at least
/// `a` and every read non-negative; a read whose tap time lies in the input
/// sees at least `a`.
proof fn lemma_chorus_constant_pos(
    input: Seq<i32>,
    mods: Seq<i32>,
    base: int,
    depth: int,
    g: int,
    a: int,
    t: int,
)
    requires
        forall|j: int| 0 <= j < input.len() ==> #[trigger] input[j] == a,
        a > 0,
        0 <= g <= UNIT,
        0 <= t < input.len(),
    ensures
        chorus_written(input, mods, base, depth, g, t) >= a * ONE,
        chorus_tap(input, mods, base, depth, g, t) >= 0,
        ({
            let s1 = tap_time(mods, base, depth, t) / (FRAC_ONE as int);
            0 <= s1 < t && (tap_time(mods, base, depth, t) % (FRAC_ONE as int) != 0 ==> s1 + 1 < t)
                ==> chorus_tap(input, mods, base, depth, g, t) >= a * ONE
        }),
    decreases t,
{
    let x = tap_time(mods, base, depth, t);
    let s1 = x / (FRAC_ONE as int);
    if 0 <= s1 < t {
        lemma_chorus_constant_pos(input, mods, base, depth, g, a, s1);
    }
    if 0 <= s1 + 1 < t {
        lemma_chorus_constant_pos(input, mods, base, depth, g, a, s1 + 1);
    }
    lemma_mod_bound(x, FRAC_ONE as int);
    lemma_interp_between(
        chorus_past(input, mods, base, depth, g, s1, t),
        chorus_past(input, mods, base, depth, g, s1 + 1, t),
        x % (FRAC_ONE as int),
    );
    lemma_scale_shrinks(g, chorus_tap(input, mods, base, depth, g, t));
    assert(input[t] == a);
}

/// The mirror image of `lemma_chorus_constant_pos` for a level `a < 0`.
proof fn lemma_chorus_constant_neg(
    input: Seq<i32>,
    mods: Seq<i32>,
    base: int,
    depth: int,
    g: int,
    a: int,
    t: int,
)
    requires
        forall|j: int| 0 <= j < input.len() ==> #[trigger] input[j] == a,
        a < 0,
        0 <= g <= UNIT,
        0 <= t < input.len(),
    ensures
        chorus_written(input, mods, base, depth, g, t) <= a * ONE,
        chorus_tap(input, mods, base, depth, g, t) <= 0,
        ({
            let s1 = tap_time(mods, base, depth, t) / (FRAC_ONE as int);
            0 <= s1 < t && (tap_time(mods, base, depth, t) % (FRAC_ONE as int) != 0 ==> s1 + 1 < t)
                ==> chorus_tap(input, mods, base, depth, g, t) <= a * ONE
        }),
    decreases t,
{
    let x = tap_time(mods, base, depth, t);
    let s1 = x / (FRAC_ONE as int);
    if 0 <= s1 < t {
        lemma_chorus_constant_neg(input, mods, base, depth, g, a, s1);
    }
    if 0 <= s1 + 1 < t {
        lemma_chorus_constant_neg(input, mods, base, depth, g, a, s1 + 1);
    }
    lemma_mod_bound(x, FRAC_ONE as int);
    lemma_interp_between(
        chorus_past(input, mods, base, depth, g, s1, t),
        chorus_past(input, mods, base, depth, g, s1 + 1, t),
        x % (FRAC_ONE as int),
    );
    lemma_scale_shrinks(g, chorus_tap(input, mods, base, depth, g, t));
    assert(input[t] == a);
}

/// Chorus audibly alters a constant signal: for a constant non-zero input,
/// any wet share in `(0, 1]`, and an input longer than the base delay plus
/// the depth, the first output frame (dry only, the line still silent)
/// differs from the last (which also carries the delayed signal).
pub proof fn lemma_chorus_variation(
    input: Seq<i32>,
    modulation: Seq<i32>,
    sample_rate: u32,
    wet: i32,
    delay_us: u64,
    gain: i64,
    depth_us: u64,
    a: i32,
)
    requires
        forall|j: int| 0 <= j < input.len() ==> #[trigger] input[j] == a,
        a != 0,
        0 < wet <= ONE,
        modulation.len() == input.len(),
        modulation_in_range(modulation),
        (input.len() - 1) * FRAC_ONE >= frames_q16(delay_us as int, sample_rate as int)
            + frames_q16(depth_us as int, sample_rate as int),
    ensures
        ({
            let out = chorus_output(
                input,
                modulation,
                frames_q16(delay_us as int, sample_rate as int),
                frames_q16(depth_us as int, sample_rate as int),
                chorus_gain(gain as int),
                wet as int,
            );
            out[0] == (ONE - wet) * (a * ONE) && out[0] != out[input.len() - 1]
        }),
{
    let base = frames_q16(delay_us as int, sample_rate as int);
    let depth = frames_q16(depth_us as int, sample_rate as int);
    let g = chorus_gain(gain as int);
    let n = input.len() as int;
    let t = n - 1;
    assert(n >= 1) by (nonlinear_arith)
        requires (n - 1) * 65536 >= base + depth, base >= 65536, depth >= 65536;
    // Frame 0 reads before the input began.
    let m0 = modulation[0] as int;
    assert(0 <= m0 <= ONE);
    assert(0 <= m0 * depth / 32768 <= depth) by (nonlinear_arith)
        requires 0 <= m0 <= 32768, depth >= 0;
    let x0 = tap_time(modulation, base, depth, 0);
    lemma_fundamental_div_mod(x0, FRAC_ONE as int);
    lemma_mod_bound(x0, FRAC_ONE as int);
    assert(x0 / 65536 < 0) by (nonlinear_arith)
        requires x0 == 65536 * (x0 / 65536) + x0 % 65536, 0 <= x0 % 65536, x0 < 0;
    lemma_interp_between(0, 0, x0 % (FRAC_ONE as int));
    assert(chorus_tap(input, modulation, base, depth, g, 0) == 0);
    assert(input[0] == a);
    // The last frame reads inside the input.
    let mt = modulation[t] as int;
    assert(0 <= mt <= ONE);
    assert(0 <= mt * depth / 32768 <= depth) by (nonlinear_arith)
        requires 0 <= mt <= 32768, depth >= 0;
    let x = tap_time(modulation, base, depth, t);
    lemma_fundamental_div_mod(x, FRAC_ONE as int);
    lemma_mod_bound(x, FRAC_ONE as int);
    let s1 = x / (FRAC_ONE as int);
    let f = x % (FRAC_ONE as int);
    assert(0 <= x <= (t - 1) * 65536);
    assert(0 <= s1 < t) by (nonlinear_arith)
        requires x == 65536 * s1 + f, 0 <= f < 65536, 0 <= x <= (t - 1) * 65536;
    assert(f != 0 ==> s1 + 1 < t) by (nonlinear_arith)
        requires x == 65536 * s1 + f, 0 <= f, x <= (t - 1) * 65536;
    assert(input[t] == a);
    let v = chorus_tap(input, modulation, base, depth, g, t);
    if a > 0 {
        lemma_chorus_constant_pos(input, modulation, base, depth, g, a as int, t);
        assert(wet * v > 0) by (nonlinear_arith)
            requires wet > 0, v >= a * 32768, a > 0;
    } else {
        lemma_chorus_constant_neg(input, modulation, base, depth, g, a as int, t);
        assert(wet * v < 0) by (nonlinear_arith)
            requires wet > 0, v <= a * 32768, a < 0;
    }
}

/// The oscillator phase at frame `i` for a per-frame step, in units of
/// 2^-32 turns: the accumulated steps, wrapped into one turn.
pub open spec fn lfo_phase(step: int, i: int) -> int {
    (i * step) % 0x1_0000_0000
}

/// The oscillator phases of `n` frames, starting at phase 0 and advancing by
/// `step` (2^-32 turns) each frame.
pub fn lfo_phases(n: usize, step: u32) -> (phases: Vec<u32>)
    ensures
        phases@.len() == n,
        forall|i: int| 0 <= i < n ==> #[trigger] phases@[i] == lfo_phase(step as int, i),
{
    let mut phases: Vec<u32> = Vec::new();
    let mut phase: u32 = 0;
    let mut i: usize = 0;
    while i < n
        invariant
            i <= n,
            phases@.len() == i,
            phase == lfo_phase(step as int, i as int),
            forall|j: int| 0 <= j < i ==> #[trigger] phases@[j] == lfo_phase(step as int, j),
        decreases n - i,
    {
        phases.push(phase);
        proof {
            lemma_add_mod_noop(i * step, step as int, 0x1_0000_0000);
            lemma_small_mod(step as nat, 0x1_0000_0000);
            assert((i + 1) * step == i * step + step) by (nonlinear_arith);
            lemma_mod_bound(i * step, 0x1_0000_0000);
        }
        phase = phase.wrapping_add(step);
        i = i + 1;
    }
    phases
}

} // verus!
