//! The sampler with the arithmetic around it, against the same draw written
//! down in one piece.

use std::collections::VecDeque;

use qwen3_tts::ieee::{Double, Single};
use qwen3_tts::sampling::{
    argmax, draw_clip, draw_end, draw_start, scales, top_k_filter, CodeStep, DrawLaw, DrawStep,
    Penalty, Sampler, SamplerCfg, CODEC_EOS, CODEC_VOCAB, SEMANTIC_VOCAB, without_end,
};
use qwen3_tts::TtsError;
use rand::rngs::StdRng;
use rand::{Rng, SeedableRng};

const NEG_INF: f32 = f32::NEG_INFINITY;

fn single(x: f32) -> Single {
    Single { bits: x.to_bits() }
}

fn double(x: f64) -> Double {
    Double { bits: x.to_bits() }
}

fn singles(v: &[f32]) -> Vec<Single> {
    v.iter().map(|&x| single(x)).collect()
}

fn floats(v: &[Single]) -> Vec<f32> {
    v.iter().map(|s| f32::from_bits(s.bits)).collect()
}

fn exps(l: &[f32]) -> Vec<f32> {
    let max = l
        .iter()
        .copied()
        .filter(|v| v.is_finite())
        .fold(NEG_INF, f32::max);
    l.iter()
        .map(|v| if v.is_finite() { (v - max).exp() } else { 0.0 })
        .collect()
}

/// How a draw starts: what it asks for, and the random number it takes.
type Start<'a> =
    &'a mut dyn FnMut(&[Single], &DrawLaw) -> Result<(DrawStep, Option<u32>), TtsError>;

/// Draws from logits by a law.
fn draw(logits: &[f32], law: &DrawLaw, start: Start<'_>) -> Result<u32, TtsError> {
    let t = f64::from_bits(law.temperature.bits);
    let mut l = logits.to_vec();
    if scales(law.temperature) {
        for v in l.iter_mut() {
            *v /= t as f32;
        }
    }
    let (step, threshold) = start(&singles(&l), law)?;
    let kept = match step {
        DrawStep::Token(t) => return Ok(t),
        DrawStep::Weigh { logits } => logits,
        DrawStep::Nucleus { logits, order } => {
            let l = floats(&logits);
            let max = l[order[0]];
            let e: Vec<f32> = order.iter().map(|&i| (l[i] - max).exp()).collect();
            let sum: f32 = e.iter().sum();
            let shares: Vec<f32> = e.iter().map(|x| x / sum).collect();
            let top_p = f64::from_bits(law.top_p.bits) as f32;
            draw_clip(logits, &order, &singles(&running(&shares)), single(top_p))
        }
    };
    let e = exps(&floats(&kept));
    let sum: f32 = e.iter().sum();
    let r = threshold.expect("a random number") as f32 * (1.0 / 16_777_216.0) * sum;
    draw_end(&kept, &singles(&running(&e)), single(r))
}

fn running(v: &[f32]) -> Vec<f32> {
    let mut sum = 0f32;
    v.iter()
        .map(|x| {
            sum += x;
            sum
        })
        .collect()
}

fn next_token(s: &mut Sampler, logits: &[f32]) -> Result<u32, TtsError> {
    let plan = s.next_token(&singles(logits));
    let base = floats(&plan.base);
    let p = f32::from_bits(s.cfg().repetition_penalty.bits);
    let penalized: Vec<f32> = base
        .iter()
        .zip(&plan.penalties)
        .map(|(&v, what)| match what {
            Penalty::Keep => v,
            Penalty::Divide => v / p,
            Penalty::Multiply => v * p,
        })
        .collect();
    let mut start = |l: &[Single], law: &DrawLaw| s.draw_token(&plan.base, l, law);
    let mut tok = draw(&penalized, &plan.law, &mut start)?;
    if let Some(law) = s.redraw(tok) {
        let mut start = |l: &[Single], law: &DrawLaw| s.draw_token(&plan.base, l, law);
        tok = draw(&base, &law, &mut start)?;
    }
    s.accept(tok);
    Ok(tok)
}

fn next_code(s: &mut Sampler, logits: &[f32]) -> Result<u32, TtsError> {
    match s.next_code(&singles(logits))? {
        CodeStep::Code(c) => Ok(c),
        CodeStep::Draw(law) => draw(logits, &law, &mut |l, law| s.draw_code(l, law)),
    }
}

/// The draw in one piece, on numbers.
fn whole_draw(rng: &mut StdRng, logits: &[f32], t: f64, k: usize, p: f64) -> u32 {
    let best = |l: &[f32]| -> u32 {
        let mut b = usize::MAX;
        for i in 0..l.len() {
            if l[i].is_finite() && (b == usize::MAX || l[i] > l[b]) {
                b = i;
            }
        }
        b as u32
    };
    let mut l = logits.to_vec();
    if t > 0.0 && (t - 1.0).abs() > 1e-12 {
        l.iter_mut().for_each(|v| *v /= t as f32);
    }
    if t < 0.01 {
        return best(&l);
    }
    if k > 0 && k < l.len() {
        let mut sorted: Vec<f32> = l.iter().copied().filter(|v| v.is_finite()).collect();
        sorted.sort_by(|a, b| b.total_cmp(a));
        if sorted.len() > k {
            let least = sorted[k - 1];
            l.iter_mut().for_each(|v| {
                if *v < least {
                    *v = NEG_INF
                }
            });
        }
    }
    let mut idx: Vec<usize> = (0..l.len()).filter(|&i| l[i].is_finite()).collect();
    if p > 0.0 && p < 1.0 {
        idx.sort_by(|&a, &b| l[b].total_cmp(&l[a]));
        let max = l[idx[0]];
        let e: Vec<f32> = idx.iter().map(|&i| (l[i] - max).exp()).collect();
        let sum: f32 = e.iter().sum();
        let mut cum = 0f32;
        let mut cutoff = idx.len();
        for (rank, x) in e.iter().enumerate() {
            cum += x / sum;
            if cum > p as f32 {
                cutoff = rank + 1;
                break;
            }
        }
        for &i in &idx[cutoff..] {
            l[i] = NEG_INF;
        }
    }
    let e = exps(&l);
    let r: f32 = rng.gen::<f32>() * e.iter().sum::<f32>();
    let mut cum = 0f32;
    for (i, x) in e.iter().enumerate() {
        cum += x;
        if cum >= r {
            return i as u32;
        }
    }
    best(&l)
}

/// Sampled tokens in one piece, on numbers.
fn whole_tokens(cfg: &SamplerCfg, steps: &[Vec<f32>]) -> Vec<u32> {
    let f = |d: Double| f64::from_bits(d.bits);
    let mut rng = StdRng::seed_from_u64(cfg.seed);
    let mut seen = vec![false; CODEC_VOCAB];
    let mut recent: VecDeque<u32> = VecDeque::new();
    let mut out = Vec::new();
    for logits in steps {
        let mut base = logits[..CODEC_VOCAB].to_vec();
        for i in SEMANTIC_VOCAB..base.len() {
            if i as u32 != CODEC_EOS {
                base[i] = NEG_INF;
            }
        }
        if out.len() < cfg.min_new_tokens {
            base[CODEC_EOS as usize] = NEG_INF;
        }
        let p = f32::from_bits(cfg.repetition_penalty.bits);
        let mut penalized = base.clone();
        for (i, v) in penalized.iter_mut().enumerate() {
            if seen[i] && v.is_finite() {
                *v = if *v > 0.0 { *v / p } else { *v * p };
            }
        }
        let mut tok = whole_draw(
            &mut rng,
            &penalized,
            f(cfg.temperature),
            cfg.top_k,
            f(cfg.top_p),
        );
        if let Some(n) = cfg.ras_window {
            if recent.contains(&tok) && tok != CODEC_EOS {
                tok = whole_draw(&mut rng, &base, f(cfg.ras_temperature), 0, f(cfg.ras_top_p));
            }
            recent.push_back(tok);
            while recent.len() > n {
                recent.pop_front();
            }
        }
        seen[tok as usize] = true;
        out.push(tok);
    }
    out
}

fn noise(seed: u64, len: usize, spread: f32) -> Vec<f32> {
    let mut rng = StdRng::seed_from_u64(seed);
    (0..len)
        .map(|_| (rng.gen::<f32>() - 0.5) * spread)
        .collect()
}

#[test]
fn tokens_come_out_as_in_one_piece() {
    for base in [SamplerCfg::official(), SamplerCfg::app()] {
        for seed in [0u64, 77, u64::MAX] {
            let mut cfg = base;
            cfg.seed = seed;
            let steps: Vec<Vec<f32>> = (0..12)
                .map(|i| noise(100 + i % 3, CODEC_VOCAB, 12.0))
                .collect();
            let mut s = Sampler::new(cfg);
            let got: Vec<u32> = steps
                .iter()
                .map(|l| next_token(&mut s, l).expect("a token"))
                .collect();
            assert_eq!(got, whole_tokens(&cfg, &steps), "seed {seed}");
        }
    }
}

#[test]
fn codes_come_out_as_in_one_piece() {
    let mut cfg = SamplerCfg::official();
    cfg.seed = 5;
    let mut s = Sampler::new(cfg);
    let mut rng = StdRng::seed_from_u64(5 ^ 0x9E37_79B9_7F4A_7C15);
    for i in 0..20 {
        let l = noise(i, 2048, 9.0);
        let want = whole_draw(&mut rng, &l, 0.9, 50, 1.0);
        assert_eq!(next_code(&mut s, &l).expect("a code"), want);
    }
}

#[test]
fn sampling_codes_leaves_the_tokens_alone() {
    let steps: Vec<Vec<f32>> = (0..6).map(|i| noise(i, CODEC_VOCAB, 10.0)).collect();
    let run = |codes: bool| -> Vec<u32> {
        let mut s = Sampler::new(SamplerCfg::official());
        steps
            .iter()
            .map(|l| {
                if codes {
                    next_code(&mut s, &noise(9, 64, 3.0)).expect("a code");
                }
                next_token(&mut s, l).expect("a token")
            })
            .collect()
    };
    assert_eq!(run(false), run(true));
}

#[test]
fn the_streams_are_those_of_the_seed() {
    let mut cfg = SamplerCfg::official();
    cfg.seed = 1234;
    let mut s = Sampler::new(cfg);
    let mut talker = StdRng::seed_from_u64(1234);
    let mut codes = StdRng::seed_from_u64(1234 ^ 0x9E37_79B9_7F4A_7C15);
    for _ in 0..10 {
        assert_eq!(s.token_threshold(), talker.gen::<u32>() >> 8);
        assert_eq!(s.code_threshold(), codes.gen::<u32>() >> 8);
        let unit: f32 = talker.gen();
        assert_eq!(s.token_threshold() as f32 / 16_777_216.0, unit);
    }
}

#[test]
fn a_failed_draw_leaves_the_sampler_as_it_was() {
    let mut cfg = SamplerCfg::app();
    cfg.seed = 99;
    let logits: Vec<f32> = (0..CODEC_VOCAB).map(|i| (i % 37) as f32 * 0.1).collect();
    let mut illegal = vec![NEG_INF; CODEC_VOCAB];
    illegal[SEMANTIC_VOCAB] = 3.0;
    illegal[SEMANTIC_VOCAB + 1] = f32::NAN;
    let mut clean = Sampler::new(cfg);
    let mut failing = Sampler::new(cfg);
    for _ in 0..20 {
        match next_token(&mut failing, &illegal) {
            Err(TtsError::Numeric(d)) => assert_eq!(d, "no finite logits to sample from"),
            other => panic!("expected Numeric, got {other:?}"),
        }
        assert!(failing
            .draw_code(&singles(&[NEG_INF]), &failing_law())
            .is_err());
        let tok = next_token(&mut failing, &logits).unwrap();
        assert_eq!(tok, next_token(&mut clean, &logits).unwrap());
        assert!(tok < SEMANTIC_VOCAB as u32 || tok == CODEC_EOS);
    }
    assert_eq!(failing.code_threshold(), clean.code_threshold());
}

fn failing_law() -> DrawLaw {
    DrawLaw {
        temperature: double(1.0),
        top_k: 0,
        top_p: double(0.9),
    }
}

#[test]
fn a_draw_takes_its_random_number_from_the_stream() {
    let mut cfg = SamplerCfg::official();
    cfg.seed = 5;
    let mut s = Sampler::new(cfg);
    let mut talker = StdRng::seed_from_u64(5);
    let mut codes = StdRng::seed_from_u64(5 ^ 0x9E37_79B9_7F4A_7C15);
    let l = singles(&[1.0, 2.0]);
    let law = failing_law();
    let cold = DrawLaw {
        temperature: double(0.0),
        ..law
    };
    for _ in 0..3 {
        let (step, threshold) = s.draw_token(&l, &l, &law).unwrap();
        assert!(matches!(step, DrawStep::Nucleus { .. }));
        assert_eq!(threshold, Some(talker.gen::<u32>() >> 8));
        // An argmax takes none.
        let (step, threshold) = s.draw_token(&l, &l, &cold).unwrap();
        assert!(matches!(step, DrawStep::Token(1)));
        assert_eq!(threshold, None);
        let (_, threshold) = s.draw_code(&l, &law).unwrap();
        assert_eq!(threshold, Some(codes.gen::<u32>() >> 8));
    }
}

#[test]
fn only_legal_tokens_are_left() {
    let mut s = Sampler::new(SamplerCfg::greedy());
    let mut logits = vec![0.0f32; CODEC_VOCAB + 10];
    logits[SEMANTIC_VOCAB] = 9.0;
    logits[CODEC_EOS as usize] = 8.0;
    logits[17] = 1.0;
    // The end is gated for two tokens, then it is the greatest.
    assert_eq!(next_token(&mut s, &logits).unwrap(), 17);
    assert_eq!(next_token(&mut s, &logits).unwrap(), 17);
    assert_eq!(next_token(&mut s, &logits).unwrap(), CODEC_EOS);
    let plan = s.next_token(&singles(&logits));
    assert_eq!(plan.base.len(), CODEC_VOCAB);
    assert_eq!(plan.base[SEMANTIC_VOCAB], single(NEG_INF));
    assert_eq!(plan.penalties[17], Penalty::Divide);
    assert_eq!(plan.penalties[18], Penalty::Keep);
    logits[17] = -1.0;
    let plan = s.next_token(&singles(&logits));
    assert_eq!(plan.penalties[17], Penalty::Multiply);
}

#[test]
fn a_token_of_late_is_drawn_again() {
    let mut cfg = SamplerCfg::app();
    cfg.ras_window = Some(2);
    let mut s = Sampler::new(cfg);
    s.accept(5);
    s.accept(6);
    let law = s.redraw(5).expect("five came up");
    assert_eq!((law.temperature, law.top_k), (double(1.0), 0));
    assert_eq!(law.top_p, double(0.9));
    s.accept(7);
    assert!(s.redraw(5).is_none());
    assert!(s.redraw(6).is_some());
    s.accept(CODEC_EOS);
    assert!(s.redraw(CODEC_EOS).is_none());
    let mut plain = Sampler::new(SamplerCfg::official());
    plain.accept(5);
    assert!(plain.redraw(5).is_none());
}

#[test]
fn argmax_takes_the_first_of_the_greatest() {
    let at = |v: &[f32]| argmax(&singles(v));
    assert_eq!(at(&[1.0, 3.0, 3.0, 2.0]).unwrap(), 1);
    assert_eq!(
        at(&[f32::NAN, f32::INFINITY, -4.0, NEG_INF, -3.0]).unwrap(),
        4
    );
    assert_eq!(at(&[-0.0, 0.0]).unwrap(), 0);
    for v in [&[][..], &[f32::NAN, f32::INFINITY][..]] {
        match at(v) {
            Err(TtsError::Numeric(d)) => assert_eq!(d, "no finite logits to take the argmax of"),
            other => panic!("expected Numeric, got {other:?}"),
        }
    }
}

#[test]
fn top_k_keeps_the_greatest_and_their_ties() {
    let cut = |v: &[f32], k: usize| floats(&top_k_filter(&singles(v), k));
    assert_eq!(cut(&[1.0, 4.0, 2.0, 3.0], 2), vec![NEG_INF, 4.0, NEG_INF, 3.0]);
    assert_eq!(cut(&[1.0, 2.0, 2.0], 1), vec![NEG_INF, 2.0, 2.0]);
    assert_eq!(cut(&[1.0, 2.0], 0), vec![1.0, 2.0]);
    assert_eq!(cut(&[1.0, 2.0], 2), vec![1.0, 2.0]);
    assert_eq!(cut(&[1.0, NEG_INF, NEG_INF], 1), vec![1.0, NEG_INF, NEG_INF]);
}

#[test]
fn a_draw_starts_as_its_law_says() {
    let law = |t: f64, k: usize, p: f64| DrawLaw {
        temperature: double(t),
        top_k: k,
        top_p: double(p),
    };
    let l = singles(&[1.0, 3.0, NEG_INF, 2.0, 3.0]);
    match draw_start(&l, &law(0.0, 2, 0.5)).unwrap() {
        DrawStep::Token(t) => assert_eq!(t, 1),
        other => panic!("expected a token, got {other:?}"),
    }
    match draw_start(&l, &law(1.0, 0, 0.5)).unwrap() {
        DrawStep::Nucleus { logits, order } => {
            assert_eq!(logits, l);
            assert_eq!(order, vec![1, 4, 3, 0]);
            let shares = singles(&[0.4, 0.8, 0.95, 1.0]);
            let kept = |p: f32| floats(&draw_clip(logits.clone(), &order, &shares, single(p)));
            assert_eq!(kept(0.3), vec![NEG_INF, 3.0, NEG_INF, NEG_INF, NEG_INF]);
            // A share that is no more than asked for takes the next one, too.
            assert_eq!(kept(0.4), vec![NEG_INF, 3.0, NEG_INF, NEG_INF, 3.0]);
            assert_eq!(kept(0.9), vec![NEG_INF, 3.0, NEG_INF, 2.0, 3.0]);
            assert_eq!(kept(1.0), floats(&l));
        }
        other => panic!("expected a nucleus, got {other:?}"),
    }
    match draw_start(&l, &law(1.0, 2, 1.0)).unwrap() {
        DrawStep::Weigh { logits } => {
            assert_eq!(floats(&logits), vec![NEG_INF, 3.0, NEG_INF, NEG_INF, 3.0])
        }
        other => panic!("expected weights, got {other:?}"),
    }
    match draw_start(&singles(&[NEG_INF, f32::NAN]), &law(1.0, 0, 1.0)) {
        Err(TtsError::Numeric(d)) => assert_eq!(d, "no finite logits to sample from"),
        other => panic!("expected Numeric, got {other:?}"),
    }
    let sums = singles(&[0.1, 0.5, 0.5, 0.6, 1.0]);
    let end = |mark: f32| draw_end(&l, &sums, single(mark)).unwrap();
    assert_eq!([end(0.0), end(0.1), end(0.2), end(0.5), end(0.55)], [0, 0, 1, 1, 3]);
    // Rounding may keep the last sum below the mark.
    assert_eq!(end(1.5), 1);
    assert_eq!(end(f32::NAN), 1);
}

#[test]
fn a_mark_of_zero_takes_the_first_entry() {
    let l = singles(&[NEG_INF, 1.0, 2.0]);
    let end = |mark: f32| draw_end(&l, &singles(&[0.0, 0.3, 1.0]), single(mark)).unwrap();
    assert_eq!((end(0.0), end(0.1), end(0.3), end(0.31)), (0, 1, 1, 2));
}

#[test]
fn a_masked_end_is_not_drawn() {
    let mut logits = vec![0.5f32; CODEC_VOCAB];
    logits[CODEC_EOS as usize] = 50.0;
    let masked = without_end(&singles(&logits));
    assert_eq!(masked[CODEC_EOS as usize], single(NEG_INF));
    assert_eq!(masked[CODEC_EOS as usize - 1], single(0.5));
    assert_eq!(masked.len(), CODEC_VOCAB);
    // Without a logit for the end there is nothing to mask.
    assert_eq!(without_end(&singles(&[1.0, 2.0])), singles(&[1.0, 2.0]));
    let mut cfg = SamplerCfg::app();
    cfg.seed = 3;
    let mut s = Sampler::new(cfg);
    for _ in 0..30 {
        assert_ne!(next_token(&mut s, &floats(&masked)).unwrap(), CODEC_EOS);
    }
    assert_eq!(next_token(&mut s, &logits).unwrap(), CODEC_EOS);
}

#[test]
fn what_was_masked_stays_masked() {
    // Whatever the scaling makes of a masked logit, it is not drawn.
    let mut s = Sampler::new(SamplerCfg::official());
    let cold = DrawLaw {
        temperature: double(0.0),
        ..failing_law()
    };
    let base = singles(&[NEG_INF, 1.0]);
    match s.draw_token(&base, &singles(&[9.0, 2.0]), &cold).unwrap() {
        (DrawStep::Token(t), None) => assert_eq!(t, 1),
        other => panic!("expected a token, got {other:?}"),
    }
    assert!(s
        .draw_token(&singles(&[NEG_INF]), &singles(&[9.0]), &cold)
        .is_err());
}
