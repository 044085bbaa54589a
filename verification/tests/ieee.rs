//! Bit patterns against the floating-point numbers they stand for.

use qwen3_tts::engine::{PostProcess, CLONE_LPF_HZ, DEESS_MAX_DB, NYQUIST_HZ};
use qwen3_tts::ieee::{Double, Single};
use qwen3_tts::postproc::SPEECH_LEVEL;
use qwen3_tts::sampling::{
    scales, SamplerCfg, DOUBLE_0_01, DOUBLE_0_7, DOUBLE_0_9, DOUBLE_1, DOUBLE_ABOUT_1_MAX,
    DOUBLE_ABOUT_1_MIN, SINGLE_1, SINGLE_1_05, SINGLE_1_1, SINGLE_NEG_INF,
};
use qwen3_tts::stream::SILENCE_LEVEL;
use qwen3_tts::talker::{talker_1_7b, DEFAULT_ATTN_BOOST, DOUBLE_1E6, DOUBLE_1E_6};

const SINGLES: [f32; 16] = [
    0.0,
    -0.0,
    1.0,
    -1.0,
    1.5,
    -1.5,
    f32::MIN_POSITIVE,
    1e-45,
    -1e-45,
    f32::MAX,
    f32::MIN,
    f32::INFINITY,
    f32::NEG_INFINITY,
    f32::NAN,
    3.0e-5,
    -7.25e12,
];

fn single(x: f32) -> Single {
    Single { bits: x.to_bits() }
}

fn double(x: f64) -> Double {
    Double { bits: x.to_bits() }
}

#[test]
fn singles_compare_as_their_values_do() {
    for a in SINGLES {
        assert_eq!(single(a).is_finite(), a.is_finite(), "{a}");
        assert_eq!(single(a).is_nan(), a.is_nan(), "{a}");
        for b in SINGLES {
            assert_eq!(single(a).lt(single(b)), a < b, "{a} {b}");
        }
    }
    assert!(single(-f32::NAN).is_nan());
}

#[test]
fn ranks_follow_the_total_order() {
    let mut all: Vec<f32> = SINGLES.to_vec();
    all.push(-f32::NAN);
    for &a in &all {
        for &b in &all {
            let by_rank = single(a).total_rank() < single(b).total_rank();
            assert_eq!(by_rank, a.total_cmp(&b).is_lt(), "{a} {b}");
        }
    }
}

#[test]
fn doubles_compare_as_their_values_do() {
    let all: Vec<f64> = SINGLES
        .iter()
        .map(|&x| x as f64)
        .chain([f64::MAX, f64::MIN_POSITIVE, 5e-324, -5e-324, 0.9, 12_000.0])
        .collect();
    for &a in &all {
        assert_eq!(double(a).is_finite(), a.is_finite(), "{a}");
        assert_eq!(double(a).is_nan(), a.is_nan(), "{a}");
        for &b in &all {
            assert_eq!(double(a).lt(double(b)), a < b, "{a} {b}");
        }
    }
}

#[test]
fn constants_stand_for_the_numbers_they_name() {
    assert_eq!(f64::from_bits(DOUBLE_0_9), 0.9);
    assert_eq!(f64::from_bits(DOUBLE_0_7), 0.7);
    assert_eq!(f64::from_bits(DOUBLE_1), 1.0);
    assert_eq!(f64::from_bits(DOUBLE_0_01), 0.01);
    assert_eq!(f64::from_bits(DOUBLE_1E6), 1e6);
    assert_eq!(f64::from_bits(DOUBLE_1E_6), 1e-6);
    assert_eq!(f32::from_bits(SINGLE_1_05), 1.05);
    assert_eq!(f32::from_bits(SINGLE_1_1), 1.1);
    assert_eq!(f32::from_bits(SINGLE_1), 1.0);
    assert_eq!(f32::from_bits(SINGLE_NEG_INF), f32::NEG_INFINITY);
    assert_eq!(f32::from_bits(SPEECH_LEVEL), 0.005);
    assert_eq!(f32::from_bits(SILENCE_LEVEL), 0.006);
    assert_eq!(f32::from_bits(DEFAULT_ATTN_BOOST), 0.5);
    assert_eq!(f64::from_bits(CLONE_LPF_HZ), 10500.0);
    assert_eq!(f32::from_bits(DEESS_MAX_DB), 12.0);
    assert_eq!(f64::from_bits(NYQUIST_HZ), 12000.0);
}

#[test]
fn a_temperature_scales_unless_it_is_one() {
    let by_value = |t: f64| t > 0.0 && (t - 1.0).abs() > 1e-12;
    let mut at: Vec<f64> = vec![-1.0, 0.0, 0.5, 0.9, 1.0, 1.1, f64::NAN, f64::INFINITY];
    for edge in [DOUBLE_ABOUT_1_MIN, DOUBLE_ABOUT_1_MAX] {
        for bits in edge - 3..=edge + 3 {
            at.push(f64::from_bits(bits));
        }
    }
    for t in at {
        assert_eq!(scales(double(t)), by_value(t), "{t:e}");
    }
}

#[test]
fn a_penalty_other_than_one_is_applied() {
    for bits in SINGLE_1 - 2..=SINGLE_1 + 2 {
        let p = f32::from_bits(bits);
        assert_eq!((p - 1.0).abs() > 1e-9, bits != SINGLE_1);
    }
}

#[test]
fn configurations_hold_the_published_numbers() {
    let c = SamplerCfg::default();
    assert_eq!(f64::from_bits(c.temperature.bits), 0.9);
    assert_eq!(f64::from_bits(c.top_p.bits), 1.0);
    assert_eq!(f32::from_bits(c.repetition_penalty.bits), 1.05);
    assert_eq!((c.top_k, c.ras_window, c.min_new_tokens), (50, None, 2));
    assert_eq!(f64::from_bits(c.ras_temperature.bits), 1.0);
    assert_eq!(f64::from_bits(c.ras_top_p.bits), 0.9);
    assert!(c.cp_sample);
    assert_eq!(f64::from_bits(c.cp_temperature.bits), 0.9);
    assert_eq!((c.cp_top_k, c.seed), (50, 0));
    assert_eq!(f64::from_bits(c.cp_top_p.bits), 1.0);
    let o = SamplerCfg::official();
    assert_eq!(format!("{o:?}"), format!("{c:?}"));
    let a = SamplerCfg::app();
    assert_eq!(f64::from_bits(a.temperature.bits), 0.7);
    assert_eq!(f64::from_bits(a.top_p.bits), 0.9);
    assert_eq!(f32::from_bits(a.repetition_penalty.bits), 1.1);
    assert_eq!(a.ras_window, Some(10));
    assert!(!a.cp_sample);
    assert_eq!(f64::from_bits(a.cp_temperature.bits), 1.0);
    assert_eq!(a.cp_top_k, 0);
    let g = SamplerCfg::greedy();
    assert_eq!(f64::from_bits(g.temperature.bits), 0.0);
    assert!(!g.cp_sample);
    assert_eq!(f32::from_bits(g.repetition_penalty.bits), 1.05);
    let p = PostProcess::app_default();
    assert_eq!(f64::from_bits(p.lowpass_hz.unwrap().bits), 10500.0);
    assert_eq!(f32::from_bits(p.deess_max_db.unwrap().bits), 12.0);
    let t = talker_1_7b();
    assert_eq!(f64::from_bits(t.rope_theta.bits), 1e6);
    assert_eq!(f64::from_bits(t.rms_eps.bits), 1e-6);
}
