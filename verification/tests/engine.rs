//! Requests as the engine admits or refuses them, and the tokenizer in front.

use qwen3_tts::code_predictor::{code_pred_1_7b, CodePredictor};
use qwen3_tts::decoder::Decoder12Hz;
use qwen3_tts::engine::{
    apply_post, join_frames, speak_end, speech_start, stream_end, validate_post, Engine,
    PostProcess,
};
use qwen3_tts::ieee::{Double, Single};
use qwen3_tts::lang::Language;
use qwen3_tts::pipeline::ClonePrompt;
use qwen3_tts::talker::{talker_1_7b, Talker};
use qwen3_tts::tokenizer::{special_tokens, TextTokenizer};
use qwen3_tts::weights::WeightFile;
use qwen3_tts::TtsError;
use serde_json::Value;

/// A vocabulary of the letters `a` to `e`, the comma, the space and some
/// merges; `Ġ` stands for a space.
fn tokenizer() -> TextTokenizer {
    let vocab: Vec<(String, u32)> = [
        "a", "b", "c", "d", "e", ",", ".", "Ġ", "ab", "abc", "Ġd", "<|endoftext|>",
    ]
    .iter()
    .enumerate()
    .map(|(i, t)| (t.to_string(), i as u32))
    .collect();
    let merges = [("a", "b"), ("ab", "c"), ("Ġ", "d")]
        .iter()
        .map(|(a, b)| (a.to_string(), b.to_string()))
        .collect();
    TextTokenizer::from_vocab_and_merges(vocab, merges).expect("tokenizer")
}

const CONFIG: &str = r#"{
  "added_tokens_decoder": {
    "11": {"content": "<|endoftext|>", "special": true},
    "12": {"content": "<|im_start|>", "special": true},
    "13": {"content": "plain", "special": false},
    "14": {"special": true},
    "15": {"content": 7, "special": true},
    "16": {"content": "no mark"}
  }
}"#;

fn engine() -> Engine {
    let talker = Talker {
        cfg: talker_1_7b(),
        text_rows: 12,
        codec_rows: 3072,
    };
    let cp = CodePredictor {
        cfg: code_pred_1_7b(),
    };
    Engine::from_parts(
        tokenizer(),
        talker,
        cp,
        Decoder12Hz::with_codebooks(vec![2048; 16]),
    )
}

fn prompt(frames: usize) -> ClonePrompt {
    ClonePrompt {
        language: Language::English,
        speaker_embedding: vec![Single { bits: 0 }; 2048],
        ref_codes: vec![vec![1; 16]; frames],
        ref_text_ids: vec![0, 1],
    }
}

fn levels(v: &[f32]) -> Vec<Single> {
    v.iter().map(|x| Single { bits: x.to_bits() }).collect()
}

#[test]
fn text_becomes_ids_by_the_merges() {
    let t = tokenizer();
    assert_eq!(t.encode("abc").unwrap(), vec![9]);
    assert_eq!(t.encode("abcab d,").unwrap(), vec![9, 8, 10, 5]);
    assert_eq!(t.encode("").unwrap(), Vec::<u32>::new());
    // What the vocabulary has no token for.
    assert_eq!(t.encode("z").unwrap(), vec![11]);
}

#[test]
fn text_is_cut_into_words_before_it_is_merged() {
    let vocab: Vec<(String, u32)> = ["a", "b", ",", "a,", ",b", "<|endoftext|>"]
        .iter()
        .enumerate()
        .map(|(i, t)| (t.to_string(), i as u32))
        .collect();
    let merges = vec![
        ("a".to_string(), ",".to_string()),
        (",".to_string(), "b".to_string()),
    ];
    let t = TextTokenizer::from_vocab_and_merges(vocab, merges).expect("tokenizer");
    // A word may take one mark in front of it, but never one behind it.
    assert_eq!(t.encode("a,b").unwrap(), vec![0, 4]);
    assert_eq!(t.encode("a,").unwrap(), vec![0, 2]);
}

#[test]
fn composed_and_decomposed_text_read_the_same() {
    let vocab: Vec<(String, u32)> = ["Ã", "©", "e", "<|endoftext|>"]
        .iter()
        .enumerate()
        .map(|(i, t)| (t.to_string(), i as u32))
        .collect();
    let t = TextTokenizer::from_vocab_and_merges(vocab, Vec::new()).expect("tokenizer");
    assert_eq!(t.encode("\u{e9}").unwrap(), vec![0, 1]);
    assert_eq!(t.encode("e\u{301}").unwrap(), vec![0, 1]);
}

#[test]
fn a_merge_outside_the_vocabulary_is_refused() {
    let vocab = vec![("a".to_string(), 0), ("b".to_string(), 1)];
    let merges = vec![("a".to_string(), "b".to_string())];
    match TextTokenizer::from_vocab_and_merges(vocab, merges) {
        Err(TtsError::Tokenizer(d)) => assert!(d.starts_with("bpe: "), "{d}"),
        Err(other) => panic!("expected Tokenizer, got {other:?}"),
        Ok(_) => panic!("the merge has no token"),
    }
}

#[test]
fn special_tokens_are_read_from_the_configuration() {
    let v: Value = CONFIG.parse().expect("json");
    assert_eq!(special_tokens(&v), vec!["<|endoftext|>", "<|im_start|>"]);
    assert!(special_tokens(&Value::Null).is_empty());
    let odd: Value = r#"{"added_tokens_decoder": [1, 2]}"#.parse().expect("json");
    assert!(special_tokens(&odd).is_empty());
}

#[test]
fn special_tokens_are_kept_whole() {
    let mut t = tokenizer();
    let before = t.encode("a<|im_start|>b").unwrap();
    t.add_config(CONFIG).expect("config");
    assert_eq!(t.encode("a<|im_start|>b").unwrap(), vec![0, 12, 1]);
    assert_ne!(before, vec![0, 12, 1]);
    assert_eq!(t.encode("<|endoftext|>").unwrap(), vec![11]);
    match tokenizer().add_config("{ not json") {
        Err(TtsError::Tokenizer(d)) => assert!(d.starts_with("tokenizer_config.json: "), "{d}"),
        other => panic!("expected Tokenizer, got {other:?}"),
    }
}

#[test]
fn special_tokens_are_numbered_behind_the_vocabulary() {
    // One of the tokens has an id far behind the vocabulary's size; the other
    // is numbered from that size on all the same.
    let mut t = TextTokenizer::from_vocab_and_merges(
        vec![("x".to_string(), 10), ("z".to_string(), u32::MAX)],
        Vec::new(),
    )
    .expect("tokenizer");
    t.add_config(
        r#"{"added_tokens_decoder": {
            "0": {"content": "x", "special": true},
            "1": {"content": "y", "special": true},
            "2": {"content": "z", "special": true}
        }}"#,
    )
    .expect("config");
    assert_eq!(t.encode("xyz").unwrap(), vec![10, 2, u32::MAX]);
    // A configuration without special tokens leaves room for another.
    let mut t = tokenizer();
    t.add_config("{}").expect("config");
    t.add_config(CONFIG).expect("config");
    assert_eq!(t.encode("<|im_start|>").unwrap(), vec![12]);
}

#[test]
fn bad_input_is_an_error_not_a_panic() {
    let e = engine();
    let plain = PostProcess::none();
    for text in ["", "   \n"] {
        assert!(matches!(
            e.synthesize_frames(text, &prompt(0), 40, &plain),
            Err(TtsError::EmptyText)
        ));
    }
    let mut bad = prompt(0);
    bad.speaker_embedding.truncate(10);
    match e.synthesize_frames("abc", &bad, 40, &plain) {
        Err(TtsError::InvalidPrompt(d)) => {
            assert_eq!(d, "speaker embedding has 10 values, the talker takes 2048")
        }
        other => panic!("expected InvalidPrompt, got {other:?}"),
    }
    let mut bad = prompt(3);
    bad.ref_codes[0].pop();
    match e.synthesize_frames("abc", &bad, 40, &plain) {
        Err(TtsError::InvalidPrompt(d)) => assert_eq!(
            d,
            "invalid frames: reference frame 0 has 15 codes, the codec takes 16"
        ),
        other => panic!("expected InvalidPrompt, got {other:?}"),
    }
    assert!(matches!(
        e.decoder().decode(&vec![vec![0u32; 15]]),
        Err(TtsError::InvalidFrames(_))
    ));
    match e.forced_logits("abc", &prompt(0), &vec![vec![0u32; 15]]) {
        Err(TtsError::InvalidFrames(d)) => {
            assert_eq!(d, "frame 0 has 15 codes, the codec takes 16")
        }
        other => panic!("expected InvalidFrames, got {other:?}"),
    }
    match e.forced_logits("abc", &prompt(0), &vec![vec![9999u32; 16]]) {
        Err(TtsError::InvalidFrames(d)) => assert_eq!(
            d,
            "frame 0 holds code 9999, outside the codec's 0..2048 range"
        ),
        other => panic!("expected InvalidFrames, got {other:?}"),
    }
    assert!(matches!(
        e.build_clone_prompt(
            vec![Single { bits: 0 }; 2048],
            vec![vec![1; 16]; 3],
            "  ",
            Language::English
        ),
        Err(TtsError::EmptyReferenceText)
    ));
}

#[test]
fn a_blank_reference_text_is_refused_first() {
    let e = engine();
    for codes in [Vec::new(), vec![vec![1; 16]; 2001]] {
        assert!(matches!(
            e.build_clone_prompt(Vec::new(), codes, "\n\u{3000}", Language::Auto),
            Err(TtsError::EmptyReferenceText)
        ));
    }
    assert!(matches!(
        Engine::check_reference_text("  "),
        Err(TtsError::EmptyReferenceText)
    ));
    assert!(Engine::check_reference_text(" a ").is_ok());
}

#[test]
fn given_frames_are_fed_as_far_as_a_cache_goes() {
    let e = engine();
    let feed = |refs: usize, n: usize| e.forced_logits("abc", &prompt(refs), &vec![vec![0; 16]; n]);
    for (refs, n, kv) in [
        (0, 0, 448),
        (0, 416, 448),
        (0, 417, 1024),
        (0, 420, 1024),
        (0, 992, 1024),
        (0, 993, 2048),
        (0, 2016, 2048),
        (2000, 16, 2048),
    ] {
        let (ids, p) = feed(refs, n).expect("room for them");
        assert_eq!(ids, vec![9]);
        assert_eq!((p.plan.kv_max, p.steps.len()), (kv, n));
        if let Some(last) = p.steps.last() {
            assert_eq!(last.position, p.plan.offset + n - 1);
            assert!(last.position < kv);
        }
    }
    // What no cache has room for is not fed.
    for (refs, n, fed) in [(0, 2017, 2016), (0, 3000, 2016), (2000, 17, 16)] {
        let (_, p) = feed(refs, n).expect("a plan");
        assert_eq!((p.plan.kv_max, p.steps.len()), (2048, fed));
    }
}

#[test]
fn a_stream_is_drawn_like_a_text_in_one_piece() {
    let e = engine();
    for post in [PostProcess::none(), PostProcess::app_default()] {
        let one = e
            .synthesize_frames("abc d.", &prompt(2), 40, &post)
            .expect("a request");
        for full_lead in [false, true] {
            let (q, st) = e
                .synthesize_streaming("abc d.", &prompt(2), 40, full_lead, &post, "10500")
                .expect("a request");
            assert_eq!((&q.text, &q.ids), (&one.text, &one.ids));
            assert_eq!(q.start, one.start);
            assert_eq!(q.plan.trailing, one.plan.trailing);
            assert_eq!(st.hold_eos, post.hold_eos);
        }
    }
}

#[test]
fn published_audio_is_1920_samples_a_frame() {
    let e = engine();
    let none = PostProcess::none();
    for (refs, n) in [(0, 1), (0, 50), (3, 7), (45, 50)] {
        let (_, plan) = e
            .decode_after_reference(&prompt(refs), &vec![vec![7; 16]; n])
            .expect("valid")
            .expect("something to decode");
        let (a, b) = plan.kept(plan.window_frames * 1920);
        assert_eq!(b - a, n * 1920);
        assert_eq!(plan.window_from * 1920 + a, refs * 1920);
        let l = levels(&vec![0.0; n * 1920 / 480]);
        assert_eq!(apply_post(&none, refs > 0, &l, n * 1920), (0, n * 1920));
    }
}

#[test]
fn ids_must_be_in_the_vocabulary() {
    let mut e = tokenizer();
    e.add_config(CONFIG).expect("config");
    let talker = Talker {
        cfg: talker_1_7b(),
        text_rows: 12,
        codec_rows: 3072,
    };
    let cp = CodePredictor {
        cfg: code_pred_1_7b(),
    };
    let e = Engine::from_parts(e, talker, cp, Decoder12Hz::with_codebooks(vec![2048; 16]));
    match e.synthesize_frames("a<|im_start|>", &prompt(0), 4, &PostProcess::none()) {
        Err(TtsError::InvalidPrompt(d)) => assert_eq!(d, "text id outside the vocabulary"),
        other => panic!("expected InvalidPrompt, got {other:?}"),
    }
    let mut p = prompt(1);
    p.ref_text_ids = vec![12];
    assert_eq!(
        e.validate_prompt(&p).unwrap_err().message(),
        "invalid prompt: reference text id outside the vocabulary"
    );
    assert_eq!(
        e.validate_prompt(&prompt(2001)).unwrap_err().message(),
        "reference audio is too long: 2001 frames, at most 2000 allowed"
    );
    assert!(e.validate_prompt(&prompt(2000)).is_ok());
    assert!(matches!(
        e.validate_text_ids(&Vec::new()),
        Err(TtsError::EmptyText)
    ));
    assert_eq!(e.talker().text_vocab_rows(), 12);
    assert_eq!(e.code_predictor().cfg.groups, 16);
}

#[test]
fn an_admitted_text_is_planned() {
    let e = engine();
    let q = e
        .synthesize_frames("abc d.", &prompt(0), 40, &PostProcess::none())
        .expect("a request");
    assert_eq!(q.text, "abc d.");
    assert_eq!(q.ids, vec![9, 10, 6]);
    assert_eq!(q.plan.trailing.len(), 3);
    assert!(!q.start.hold_eos);
    let mut post = PostProcess::app_default();
    let q = e
        .synthesize_speak("abc d.", &prompt(2), 40, &post, "10500")
        .expect("a request");
    assert_eq!(q.text, "abc d,");
    assert_eq!(q.ids, vec![9, 10, 5]);
    assert!(q.start.hold_eos);
    assert_eq!(q.plan.boost_boundary, q.plan.offset);
    let (q, st) = e
        .synthesize_streaming("abc d.", &prompt(2), 40, true, &post, "10500")
        .expect("a request");
    assert_eq!((st.ref_len, st.text_frames), (2, q.ids.len()));
    assert!(st.full_lead && st.hold_eos);
    post.lowpass_hz = Some(Double {
        bits: 12_000f64.to_bits(),
    });
    match e.synthesize_streaming("abc", &prompt(2), 40, true, &post, "12000") {
        Err(TtsError::InvalidConfig(d)) => {
            assert_eq!(d, "lowpass_hz 12000 must lie in (0, 12000) at 24 kHz")
        }
        other => panic!("expected InvalidConfig, got {other:?}"),
    }
    let p = e
        .generate_frames(&vec![1, 2], &prompt(0), 5, false)
        .expect("a plan");
    assert_eq!(p.max_frames, 5);
    let (ids, p) = e
        .forced_logits("abc", &prompt(0), &vec![vec![0; 16]; 3])
        .expect("a plan");
    assert_eq!((ids, p.steps.len()), (vec![9], 3));
}

#[test]
fn a_low_pass_must_lie_in_the_band() {
    let with = |hz: f64| PostProcess {
        lowpass_hz: Some(Double { bits: hz.to_bits() }),
        ..PostProcess::none()
    };
    for hz in [1e-300, 1.0, 10500.0, 11999.9] {
        assert!(validate_post(&with(hz), "x").is_ok(), "{hz}");
    }
    for hz in [0.0, -0.0, -1.0, 12000.0, f64::INFINITY, f64::NAN] {
        assert!(validate_post(&with(hz), "x").is_err(), "{hz}");
    }
    assert!(validate_post(&PostProcess::default(), "").is_ok());
}

#[test]
fn prompts_hold_what_they_are_built_from() {
    let e = engine();
    let one = Single {
        bits: 1f32.to_bits(),
    };
    let p = e
        .build_clone_prompt(vec![one; 2048], vec![vec![2; 16]; 3], "abc", Language::Korean)
        .expect("a prompt");
    assert_eq!(p.language, Language::Korean);
    assert_eq!(p.speaker_embedding, vec![one; 2048]);
    assert_eq!(p.ref_codes, vec![vec![2; 16]; 3]);
    assert_eq!(p.ref_text_ids, vec![9]);
    match e.build_clone_prompt(vec![], vec![vec![0; 16]; 2001], "abc", Language::Auto) {
        Err(TtsError::ReferenceTooLong { frames, max }) => assert_eq!((frames, max), (2001, 2000)),
        Err(other) => panic!("expected ReferenceTooLong, got {other:?}"),
        Ok(_) => panic!("the reference is too long"),
    }
    let x = Engine::build_xvector_prompt(vec![one], Language::Auto);
    assert!(x.ref_codes.is_empty() && x.ref_text_ids.is_empty());
    assert_eq!(x.speaker_embedding, vec![one]);
}

#[test]
fn decodes_put_the_reference_in_front() {
    let e = engine();
    let made = vec![vec![7; 16]; 50];
    let (all, plan) = e
        .decode_after_reference(&prompt(45), &made)
        .expect("valid")
        .expect("something to decode");
    assert_eq!(all, join_frames(&prompt(45).ref_codes, &made));
    assert_eq!(all.len(), 95);
    assert_eq!((plan.frames, plan.window_from, plan.context), (128, 5, 40));
    let (_, plan) = e
        .decode_after_reference(&prompt(0), &made)
        .expect("valid")
        .expect("something to decode");
    assert_eq!((plan.frames, plan.window_from, plan.context), (64, 0, 0));
    assert!(e
        .decode_after_reference(&prompt(45), &Vec::new())
        .expect("valid")
        .is_none());
    assert!(e
        .decode_after_reference(&prompt(0), &vec![vec![2048; 16]])
        .is_err());
}

#[test]
fn trims_follow_the_switches() {
    let mut v = vec![0.0f32; 50];
    v.extend([0.5; 30]);
    v.extend([0.0; 40]);
    let l = levels(&v);
    let len = 120 * 480 + 7;
    let app = PostProcess::app_default();
    assert_eq!(apply_post(&app, true, &l, len), (47 * 480, 88 * 480));
    assert_eq!(apply_post(&app, false, &l, len), (0, 88 * 480));
    assert_eq!(apply_post(&PostProcess::none(), true, &l, len), (0, len));
    assert_eq!(speech_start(&app, true, &l, len), 47 * 480);
    assert_eq!(stream_end(&app, &l, len), 88 * 480);
    assert_eq!(stream_end(&PostProcess::none(), &l, len), len);
    let loud = Single {
        bits: 0.225f32.to_bits(),
    };
    assert_eq!(speak_end(&app, &l, loud, len), 83 * 480);
    assert_eq!(speak_end(&PostProcess::none(), &l, loud, len), len);
}

#[test]
fn a_model_without_weights_is_refused() {
    let mut bytes = 8u64.to_le_bytes().to_vec();
    bytes.extend_from_slice(b"{}      ");
    let wf = WeightFile::open("empty", &bytes).expect("an empty file");
    let err = Engine::load(tokenizer(), &wf, &wf)
        .err()
        .expect("there are no layers");
    assert_eq!(
        err.message(),
        "invalid config: config says 28 layers under talker.model.layers but the weights hold fewer"
    );
}

#[test]
fn blank_texts_are_told_by_white_space() {
    assert!(qwen3_tts::text::is_blank(" \t\n\u{3000}\u{2028}"));
    assert!(!qwen3_tts::text::is_blank(" . "));
    assert_eq!(qwen3_tts::text::decimal(u64::MAX), u64::MAX.to_string());
    assert_eq!(qwen3_tts::text::number_list(&[1, 20, 3]), "[1, 20, 3]");
    assert_eq!(qwen3_tts::text::number_list(&[]), "[]");
}
