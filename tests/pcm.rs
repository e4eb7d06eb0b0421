use wav_echo::pcm::{check_format, decode_samples, encode_samples, to_pcm16, Effect, FormatError};
use wav_echo::process::process_samples;

#[test]
fn accepts_mono_16khz_16bit() {
    assert_eq!(check_format(1, 16000, 16), Ok(()));
}

#[test]
fn refuses_other_formats_first_mismatch_first() {
    assert_eq!(check_format(2, 16000, 16), Err(FormatError::NotMono));
    assert_eq!(check_format(2, 44100, 8), Err(FormatError::NotMono));
    assert_eq!(check_format(1, 44100, 16), Err(FormatError::UnsupportedSampleRate));
    assert_eq!(check_format(1, 44100, 24), Err(FormatError::UnsupportedSampleRate));
    assert_eq!(check_format(1, 16000, 24), Err(FormatError::UnsupportedBitDepth));
}

#[test]
fn effect_names() {
    assert_eq!(Effect::from_name("echo"), Some(Effect::Echo));
    assert_eq!(Effect::from_name("reverb"), Some(Effect::Reverb));
    assert_eq!(Effect::from_name("chorus"), Some(Effect::Chorus));
    assert_eq!(Effect::from_name("Echo"), None);
    assert_eq!(Effect::from_name("flanger"), None);
    assert_eq!(Effect::from_name(""), None);
}

#[test]
fn decode_keeps_values() {
    assert_eq!(decode_samples(&vec![-32768, -1, 0, 1, 32767]), vec![-32768, -1, 0, 1, 32767]);
}

#[test]
fn quantize_scales_truncates_and_clamps() {
    let s: i128 = 1 << 30;
    assert_eq!(to_pcm16(32768 * s), 32767);
    assert_eq!(to_pcm16(-32768 * s), -32767);
    assert_eq!(to_pcm16(16384 * s), 16383);
    assert_eq!(to_pcm16(-16385 * s), -16384);
    assert_eq!(to_pcm16(0), 0);
    assert_eq!(to_pcm16(s), 0);
    assert_eq!(to_pcm16(32769 * s / 32767), 1);
    assert_eq!(to_pcm16(-32770 * s), -32768);
    assert_eq!(to_pcm16(40000 * s), 32767);
    assert_eq!(to_pcm16(i128::MAX), 32767);
    assert_eq!(to_pcm16(i128::MIN), -32768);
    assert_eq!(encode_samples(&vec![32768 * s, 16384 * s, -70000 * s]), vec![32767, 16383, -32768]);
}

#[test]
fn process_echo_end_to_end() {
    let mut pcm = vec![0i16; 40];
    pcm[0] = 32767;
    let out = process_samples(&pcm, 16000, Effect::Echo, 16384, 1_000, 0, &vec![], 0);
    assert_eq!(out.len(), 40);
    assert_eq!(out[0], 16383);
    assert_eq!(out[1], 0);
    assert_eq!(out[16], 16383);
    assert_eq!(out[32], 0);
}

#[test]
fn process_reverb_and_chorus_end_to_end() {
    let mut pcm = vec![0i16; 8];
    pcm[0] = 32767;
    let rev = process_samples(&pcm, 16000, Effect::Reverb, 32768, 0, 1 << 30, &vec![], 0);
    assert_eq!(rev, vec![0, 32766, 16383, 16383, 16383, 16383, 16383, 16383]);
    let cho = process_samples(&pcm, 1000, Effect::Chorus, 32768, 2_000, 0, &vec![16384; 8], 1_000);
    assert_eq!(cho, vec![0, 0, 16383, 16383, 0, 0, 0, 0]);
}
