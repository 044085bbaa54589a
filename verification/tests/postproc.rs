//! Checks of the silence detectors on synthetic signals: exact zeros around a
//! 440 Hz tone at 24 kHz, so every 20 ms window (480 samples) is either fully
//! silent or fully active and the expected boundaries are exact multiples of
//! the window.

use qwen3_tts::ieee::Single;
use qwen3_tts::postproc;

const SR: u32 = 24_000;
const WIN: usize = 480;

fn single(x: f32) -> Single {
    Single { bits: x.to_bits() }
}

fn levels(x: &[f32]) -> Vec<Single> {
    let win = postproc::window_len(SR);
    (0..postproc::windows_in(x.len(), SR))
        .map(|w| {
            let s = &x[w * win..(w + 1) * win];
            single((s.iter().map(|x| x * x).sum::<f32>() / s.len() as f32).sqrt())
        })
        .collect()
}

fn leading_trim(x: &[f32]) -> usize {
    postproc::leading_trim(&levels(x), x.len(), SR)
}

fn trailing_trim(x: &[f32]) -> usize {
    postproc::trailing_trim(&levels(x), x.len(), SR)
}

fn bounds_threshold(l: &[Single]) -> Single {
    single((f32::from_bits(postproc::peak(l).bits) * 0.03).max(1e-4))
}

fn speech_bounds(x: &[f32]) -> (usize, usize) {
    let l = levels(x);
    postproc::speech_bounds(&l, bounds_threshold(&l), x.len(), SR)
}

fn trim_silence(x: &[f32]) -> Vec<f32> {
    let l = levels(x);
    let samples: Vec<Single> = x.iter().map(|&v| single(v)).collect();
    postproc::trim_silence(&samples, &l, bounds_threshold(&l), SR)
        .iter()
        .map(|s| f32::from_bits(s.bits))
        .collect()
}

fn release_trim(x: &[f32]) -> usize {
    let l = levels(x);
    let thr = (f32::from_bits(postproc::peak(&l).bits) * 0.45).max(0.006);
    postproc::release_trim(&l, single(thr), x.len(), SR)
}

fn tone(secs: f32, amp: f32) -> Vec<f32> {
    let n = (SR as f32 * secs) as usize;
    (0..n)
        .map(|i| amp * (2.0 * std::f32::consts::PI * 440.0 * i as f32 / SR as f32).sin())
        .collect()
}

fn silence(secs: f32) -> Vec<f32> {
    vec![0.0; (SR as f32 * secs) as usize]
}

fn concat(parts: &[Vec<f32>]) -> Vec<f32> {
    parts.iter().flat_map(|p| p.iter().copied()).collect()
}

/// 1 s silence, 1 s tone, 1 s silence: the tone occupies windows 50..=99.
fn sandwich() -> Vec<f32> {
    concat(&[silence(1.0), tone(1.0, 0.5), silence(1.0)])
}

#[test]
fn speech_bounds_keeps_40ms_margin_each_side() {
    let x = sandwich();
    let (a, b) = speech_bounds(&x);
    assert_eq!(a, (50 - 2) * WIN);
    assert_eq!(b, (99 + 1 + 2) * WIN);
}

#[test]
fn trim_silence_matches_speech_bounds() {
    let x = sandwich();
    let (a, b) = speech_bounds(&x);
    let y = trim_silence(&x);
    assert_eq!(y.len(), b - a);
    assert_eq!(y, x[a..b].to_vec());
}

#[test]
fn speech_bounds_on_pure_silence_returns_whole_clip() {
    let x = silence(0.5);
    assert_eq!(speech_bounds(&x), (0, x.len()));
    assert_eq!(trim_silence(&x).len(), x.len());
}

#[test]
fn speech_bounds_on_empty_and_sub_window_input() {
    assert_eq!(speech_bounds(&[]), (0, 0));
    let short = vec![0.3; WIN - 1];
    assert_eq!(speech_bounds(&short), (0, short.len()));
}

#[test]
fn speech_bounds_clamps_end_to_length() {
    let x = concat(&[silence(1.0), tone(1.0, 0.5)]);
    let (a, b) = speech_bounds(&x);
    assert_eq!(a, (50 - 2) * WIN);
    assert_eq!(b, x.len());
}

#[test]
fn leading_trim_keeps_60ms_preroll() {
    let x = sandwich();
    assert_eq!(leading_trim(&x), (50 - 3) * WIN);
}

#[test]
fn leading_trim_ignores_a_blip_shorter_than_200ms() {
    let x = concat(&[
        silence(1.0),
        tone(0.1, 0.5),
        silence(1.0),
        tone(1.0, 0.5),
        silence(1.0),
    ]);
    assert_eq!(leading_trim(&x), (105 - 3) * WIN);
}

#[test]
fn leading_trim_is_zero_for_silence_or_immediate_speech() {
    assert_eq!(leading_trim(&silence(1.0)), 0);
    assert_eq!(leading_trim(&tone(1.0, 0.5)), 0);
    assert_eq!(leading_trim(&[]), 0);
}

#[test]
fn trims_ignore_sub_threshold_noise() {
    let x = tone(1.0, 0.004);
    assert_eq!(leading_trim(&x), 0);
    assert_eq!(trailing_trim(&x), x.len());
}

#[test]
fn trailing_trim_keeps_160ms_tail() {
    let x = sandwich();
    assert_eq!(trailing_trim(&x), (99 + 1 + 8) * WIN);
}

#[test]
fn trailing_trim_returns_length_when_nothing_to_cut() {
    let s = silence(1.0);
    assert_eq!(trailing_trim(&s), s.len());
    let t = tone(1.0, 0.5);
    assert_eq!(trailing_trim(&t), t.len());
    assert_eq!(trailing_trim(&[]), 0);
}

#[test]
fn leading_and_trailing_trim_compose() {
    let x = sandwich();
    let a = leading_trim(&x);
    let b = trailing_trim(&x);
    assert!(a < b);
    let cut = &x[a..b];
    assert_eq!(cut.len(), (108 - 47) * WIN);
    assert_eq!(trailing_trim(cut), cut.len());
}

#[test]
fn leading_trim_bridges_80ms_and_not_100ms() {
    let run = |gap: f32| {
        concat(&[
            silence(1.0),
            tone(0.12, 0.5),
            silence(gap),
            tone(0.12, 0.5),
            silence(1.0),
            tone(1.0, 0.5),
        ])
    };
    assert_eq!(leading_trim(&run(0.08)), (50 - 3) * WIN);
    // Broken into two runs of 120 ms, neither counts.
    let x = run(0.1);
    assert_eq!(leading_trim(&x), (x.len() / WIN - 50 - 3) * WIN);
}

#[test]
fn release_trim_keeps_60ms_behind_the_last_loud_window() {
    let x = concat(&[tone(1.0, 0.5), tone(0.5, 0.1), silence(1.0)]);
    assert_eq!(release_trim(&x), (49 + 1 + 3) * WIN);
    assert_eq!(release_trim(&silence(1.0)), 4 * WIN);
    assert_eq!(release_trim(&[0.2; 100]), 100);
}

#[test]
fn no_trim_cuts_a_loud_window() {
    let x = concat(&[silence(0.3), tone(0.4, 0.2), silence(0.6), tone(0.3, 0.5)]);
    for (w, l) in levels(&x).iter().enumerate() {
        if f32::from_bits(l.bits) > 0.005 {
            assert!(trailing_trim(&x) >= (w + 1) * WIN);
            let (a, b) = speech_bounds(&x);
            assert!(a <= w * WIN && (w + 1) * WIN <= b);
        }
    }
}

#[test]
fn a_window_has_at_least_one_sample() {
    assert_eq!(postproc::window_len(24_000), 480);
    assert_eq!(postproc::window_len(44_100), 882);
    assert_eq!(postproc::window_len(10), 1);
    assert_eq!(postproc::window_len(0), 1);
}

#[test]
fn peak_passes_over_what_is_no_number() {
    let l: Vec<Single> = [0.1, f32::NAN, 0.3, -2.0, 0.2]
        .iter()
        .map(|&v| single(v))
        .collect();
    assert_eq!(f32::from_bits(postproc::peak(&l).bits), 0.3);
    assert_eq!(postproc::peak(&[]).bits, 0);
}

#[test]
fn trimming_twice_is_trimming_once() {
    let clips = [
        concat(&[silence(0.5), tone(0.7, 0.3), silence(0.9)]),
        concat(&[silence(0.013), tone(0.3, 0.3), silence(0.021)]),
        concat(&[silence(0.1), tone(0.2, 0.01), silence(0.3), tone(0.2, 0.9), silence(0.2)]),
        concat(&[tone(0.1, 0.00005), silence(0.3)]),
        silence(0.2),
        tone(0.005, 0.5),
        Vec::new(),
    ];
    for clip in clips {
        let once = trim_silence(&clip);
        assert_eq!(trim_silence(&once), once);
    }
}
