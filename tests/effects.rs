use wav_echo::chorus::{apply_chorus_effect, chorus_feedback, lfo_phases, CHORUS_GAIN_MAX};
use wav_echo::delay::{apply_delay_effect, delay_feedback, delay_length};
use wav_echo::fixed::{ONE, UNIT};

/// The RT60 feedback gain `10^(-3 * delay / decay)` in Q30.
fn rt60_gain(delay_ms: u32, decay_time_s: f64) -> i64 {
    let delay_s = delay_ms as f64 / 1000.0;
    (10f64.powf(-3.0 * delay_s / decay_time_s) * 1073741824.0).round() as i64
}

/// The chorus oscillator `(sin(phase) + 1) / 2` per frame, in Q15.
fn modulation(n: usize, sr: f64, rate_hz: f64) -> Vec<i32> {
    let step = (rate_hz / sr * 4294967296.0).round() as u64 as u32;
    lfo_phases(n, step)
        .iter()
        .map(|&p| {
            let phase = p as f64 / 4294967296.0 * 2.0 * std::f64::consts::PI;
            (((phase.sin() + 1.0) * 0.5 * 32768.0).round() as i32).clamp(0, 32768)
        })
        .collect()
}

/// Full scale of an engine output frame.
const Q45: f64 = 35184372088832.0;

fn scaled(v: &[i128]) -> Vec<i128> {
    v.iter().map(|&x| x * (1 << 30)).collect()
}

fn q15(x: f64) -> i32 {
    (x * 32768.0).round() as i32
}

fn impulse(len: usize, k: usize) -> Vec<i32> {
    let mut v = vec![0i32; len];
    v[k] = ONE;
    v
}

#[test]
fn test_echo_basic() {
    let sr = 16000u32;
    let mut input: Vec<i32> = vec![0; 10000];
    input.push(q15(1.0));
    input.extend(std::iter::repeat(0).take(4000));
    let output = apply_delay_effect(&input, sr, q15(0.5), 250_000, rt60_gain(250, 1.0), false);
    let impulse_idx = 10000;
    let delay_idx = impulse_idx + (250 * sr / 1000) as usize;
    let got = output[delay_idx] as f64 / Q45;
    assert!((got - 0.5).abs() < 0.001, "Echo amplitude is incorrect. Got {}", got);
}

#[test]
fn test_reverb_lowpass() {
    let sr = 16000u32;
    let input: Vec<i32> = vec![q15(1.0)];
    let output = apply_delay_effect(&input, sr, q15(1.0), 10_000, rt60_gain(10, 0.1), true);
    assert_eq!(output.len(), 1);
}

#[test]
fn test_chorus_modulation() {
    let sr = 16000u32;
    let input: Vec<i32> = vec![q15(1.0); 1000];
    let m = modulation(input.len(), sr as f64, 1.0);
    let output = apply_chorus_effect(&input, sr, q15(0.5), 10_000, rt60_gain(10, 1.0), &m, 5_000);
    let values: Vec<f64> = output.iter().map(|&x| x as f64 / Q45).collect();
    let mean: f64 = values.iter().sum::<f64>() / values.len() as f64;
    let variance: f64 =
        values.iter().map(|&x| (x - mean).powi(2)).sum::<f64>() / values.len() as f64;
    assert!(variance > 0.001);
}

#[test]
fn delay_length_rounds_and_has_one_frame_at_least() {
    assert_eq!(delay_length(250_000, 16000), 4000);
    assert_eq!(delay_length(3_000, 16500), 50);
    assert_eq!(delay_length(1_000, 22050), 22);
    assert_eq!(delay_length(100, 16000), 2);
    assert_eq!(delay_length(0, 16000), 1);
    assert_eq!(delay_length(10_000, 0), 1);
}

#[test]
fn feedback_gains_are_clamped() {
    assert_eq!(delay_feedback(-5), 0);
    assert_eq!(delay_feedback(1 << 31), UNIT);
    assert_eq!(delay_feedback(1000), 1000);
    assert_eq!(chorus_feedback(UNIT), CHORUS_GAIN_MAX);
    assert_eq!(chorus_feedback(-1), 0);
    assert_eq!(chorus_feedback(5000), 5000);
    assert!((CHORUS_GAIN_MAX as f64 / UNIT as f64 - 0.3).abs() < 1e-9);
    assert_eq!(delay_feedback(rt60_gain(250, 1.0)), 190941298);
    assert_eq!(chorus_feedback(rt60_gain(10, 1.0)), CHORUS_GAIN_MAX);
}

#[test]
fn output_length_matches_input() {
    let input: Vec<i32> = (0..777).map(|i| (i * 97 % 65537) - 32768).collect();
    let m = modulation(input.len(), 16000.0, 0.8);
    assert_eq!(apply_delay_effect(&input, 16000, q15(0.3), 5_000, 20000, false).len(), 777);
    assert_eq!(apply_delay_effect(&input, 16000, q15(0.3), 5_000, 20000, true).len(), 777);
    assert_eq!(apply_chorus_effect(&input, 16000, q15(0.3), 5_000, 20000, &m, 2_000).len(), 777);
    assert!(apply_delay_effect(&vec![], 16000, q15(0.3), 5_000, 20000, false).is_empty());
}

#[test]
fn fully_dry_mix_returns_the_input() {
    let input: Vec<i32> = (0..500).map(|i| ((i * 7919) % 65537) - 32768).collect();
    let expected: Vec<i128> = input.iter().map(|&x| x as i128 * (1 << 30)).collect();
    let m = modulation(input.len(), 16000.0, 3.0);
    assert_eq!(apply_delay_effect(&input, 16000, 0, 2_000, UNIT, false), expected);
    assert_eq!(apply_delay_effect(&input, 16000, 0, 2_000, UNIT, true), expected);
    assert_eq!(apply_chorus_effect(&input, 16000, 0, 2_000, UNIT, &m, 1_000), expected);
}

#[test]
fn silence_stays_silent() {
    let input = vec![0i32; 300];
    let m = modulation(input.len(), 16000.0, 5.0);
    for &lowpass in &[false, true] {
        let out = apply_delay_effect(&input, 16000, -70000, 1_000, 99999, lowpass);
        assert!(out.iter().all(|&x| x == 0));
    }
    let out = apply_chorus_effect(&input, 16000, 70000, 1_000, 99999, &m, 1_000);
    assert!(out.iter().all(|&x| x == 0));
}

#[test]
fn impulse_echoes_after_exactly_the_delay() {
    let input = impulse(20000, 10000);
    let out = apply_delay_effect(&input, 16000, q15(0.5), 250_000, rt60_gain(250, 1.0), false);
    assert_eq!(out[10000], 16384 << 30);
    assert_eq!(out[14000], 16384 << 30);
    assert_eq!(out[13999], 0);
    assert_eq!(out[14001], 0);
    assert_eq!(out[9999], 0);
}

#[test]
fn echoes_decay_period_after_period() {
    let d = 16usize;
    let input = impulse(d * 14, 3);
    let out = apply_delay_effect(&input, 16000, ONE, 1_000, UNIT / 2, false);
    assert_eq!(out[3 + d], 32768 << 30);
    assert_eq!(out[3 + 2 * d], 16384 << 30);
    assert_eq!(out[3 + 3 * d], 8192 << 30);
    for n in 1..12 {
        let a = out[3 + n * d];
        let b = out[3 + (n + 1) * d];
        assert!(0 <= b && b <= a);
    }
    let full = apply_delay_effect(&input, 16000, ONE, 1_000, 1 << 31, false);
    for n in 1..12 {
        assert_eq!(full[3 + n * d], 32768 << 30);
    }
}

#[test]
fn reverb_smooths_the_feedback() {
    let d = 16usize;
    let input = impulse(d * 4, 0);
    let out = apply_delay_effect(&input, 16000, ONE, 1_000, UNIT, true);
    assert_eq!(out[d], 32768 << 30);
    assert_eq!(out[2 * d], 16384 << 30);
    assert_eq!(out[2 * d + 1], 8192 << 30);
    assert_eq!(out[2 * d + 2], 4096 << 30);
    let echo = apply_delay_effect(&input, 16000, ONE, 1_000, UNIT, false);
    assert_eq!(echo[2 * d], 32768 << 30);
    assert_eq!(echo[2 * d + 1], 0);
}

#[test]
fn chorus_reads_whole_and_fractional_offsets() {
    // 1 kHz, base delay 2 frames, depth 1 frame: a line of 4 frames.
    let input = impulse(8, 0);
    let low = apply_chorus_effect(&input, 1000, ONE, 2_000, 0, &vec![0; 8], 1_000);
    assert_eq!(low, scaled(&[0, 0, 32768, 0, 0, 0, 0, 0]));
    let high = apply_chorus_effect(&input, 1000, ONE, 2_000, 0, &vec![ONE; 8], 1_000);
    assert_eq!(high, scaled(&[0, 0, 0, 32768, 0, 0, 0, 0]));
    let half = apply_chorus_effect(&input, 1000, ONE, 2_000, 0, &vec![ONE / 2; 8], 1_000);
    assert_eq!(half, scaled(&[0, 0, 16384, 16384, 0, 0, 0, 0]));
}

#[test]
fn chorus_feedback_recirculates() {
    let input = impulse(12, 0);
    let out = apply_chorus_effect(&input, 1000, ONE, 2_000, UNIT, &vec![0; 12], 1_000);
    assert_eq!(out[2], 32768 << 30);
    assert_eq!(out[4], 32768 * 322122547);
    assert_eq!(out[6], 32768 * 96636764);
}

#[test]
fn chorus_interpolation_stays_between_neighbours() {
    let input: Vec<i32> = (0..400).map(|i| if i % 2 == 0 { ONE } else { -ONE }).collect();
    let m = modulation(input.len(), 1000.0, 7.0);
    let out = apply_chorus_effect(&input, 1000, ONE, 20_000, 0, &m, 5_000);
    let full: i128 = 32768 << 30;
    assert!(out.iter().all(|&x| -full <= x && x <= full));
    assert!(out.iter().any(|&x| x != 0 && x != full && x != -full));
}

#[test]
fn lfo_phase_accumulates_and_wraps() {
    assert_eq!(lfo_phases(5, 1 << 30), vec![0, 1 << 30, 1 << 31, 3 << 30, 0]);
    assert_eq!(lfo_phases(3, 0xffff_ffff), vec![0, 0xffff_ffff, 0xffff_fffe]);
    assert!(lfo_phases(0, 7).is_empty());
}

#[test]
fn chorus_varies_a_constant_signal_of_one_step() {
    let input = vec![1i32; 400];
    let m = modulation(input.len(), 16000.0, 1.0);
    let out = apply_chorus_effect(&input, 16000, 1, 10_000, rt60_gain(10, 1.0), &m, 5_000);
    assert_eq!(out[0], 32767 * 32768);
    assert!(out.iter().any(|&x| x != out[0]));
}

#[test]
fn delay_below_a_millisecond_rounds_to_frames() {
    let input = impulse(4, 0);
    let out = apply_delay_effect(&input, 16000, ONE, 100, rt60_gain(0, 1.0), false);
    assert_eq!(out, scaled(&[0, 0, 32768, 0]));
}

#[test]
fn chorus_depth_below_a_millisecond() {
    // Oscillator at rest: modulation 0.5; depth 0.125 ms is 2 frames, so the
    // offset is 160 + 1 frames and the line holds 164.
    let input = impulse(400, 0);
    let out = apply_chorus_effect(&input, 16000, ONE, 10_000, rt60_gain(10, 1.0), &vec![ONE / 2; 400], 125);
    for (j, &x) in out.iter().enumerate() {
        let expected: i128 = match j {
            161 => 32768 << 30,
            322 => 32768 * 322122547,
            _ => 0,
        };
        assert_eq!(x, expected, "frame {}", j);
    }
    assert!((out[322] as f64 / Q45 - 0.3).abs() < 1e-6);
}

#[test]
fn lines_longer_than_the_input_are_never_read_back() {
    let input = impulse(8, 0);
    let echo = apply_delay_effect(&input, 16000, q15(0.25), u64::MAX, UNIT, true);
    assert_eq!(echo, scaled(&[24576, 0, 0, 0, 0, 0, 0, 0]));
    // Base delay 2 frames, depth a million seconds: at modulation 0 the
    // offset is still 2 frames.
    let chorus = apply_chorus_effect(&input, 1000, ONE, 2_000, 0, &vec![0; 8], 1_000_000_000_000);
    assert_eq!(chorus, scaled(&[0, 0, 32768, 0, 0, 0, 0, 0]));
}

#[test]
fn chorus_varies_a_constant_negative_signal() {
    let input = vec![-5i32; 200];
    let m = modulation(input.len(), 16000.0, 2.0);
    let out = apply_chorus_effect(&input, 16000, 3, 5_000, rt60_gain(5, 1.0), &m, 2_000);
    assert_eq!(out[0], (32768 - 3) * -5 * 32768);
    assert_ne!(out[0], out[199]);
}
