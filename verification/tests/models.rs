//! The parts of the model: which weight files they take, and what they plan.

use qwen3_tts::code_predictor::{code_pred_1_7b, CodePredictor, CodePredictorConfig};
use qwen3_tts::decoder::{bucket, conv_padding, tconv_trim, DecodePlan, Decoder12Hz};
use qwen3_tts::encoder::{conv_pads, frame_count, window_mask, Encoder12Hz};
use qwen3_tts::ieee::{Double, Single};
use qwen3_tts::lowpass::{filter_order, stage_count};
use qwen3_tts::mel::{bit_reversal, log_mel};
use qwen3_tts::schema::{check, Dim, Step};
use qwen3_tts::speaker::{min_frames, reflect_pad, ReflectPad, SpeakerEncoder};
use qwen3_tts::talker::{
    causal_mask, expect_layer_count, heads_consistent, talker_1_7b, KvCache, Talker, TalkerConfig,
};
use qwen3_tts::weights::WeightFile;
use qwen3_tts::TtsError;

type Tensors = Vec<(String, Vec<usize>)>;

/// A safetensors file of half-precision zeros.
fn file(tensors: &Tensors) -> Vec<u8> {
    let mut header = String::from("{");
    let mut at = 0usize;
    for (i, (name, shape)) in tensors.iter().enumerate() {
        let to = at + 2 * shape.iter().product::<usize>();
        let comma = if i == 0 { "" } else { "," };
        header.push_str(&format!(
            "{comma}\"{name}\":{{\"dtype\":\"F16\",\"shape\":{shape:?},\"data_offsets\":[{at},{to}]}}"
        ));
        at = to;
    }
    header.push('}');
    while header.len() % 8 != 0 {
        header.push(' ');
    }
    let mut bytes = (header.len() as u64).to_le_bytes().to_vec();
    bytes.extend_from_slice(header.as_bytes());
    bytes.resize(bytes.len() + at, 0);
    bytes
}

fn put(t: &mut Tensors, name: &str, shape: &[usize]) {
    t.push((name.to_string(), shape.to_vec()));
}

fn without(t: &Tensors, name: &str) -> Tensors {
    t.iter().filter(|(n, _)| n != name).cloned().collect()
}

fn reshaped(t: &Tensors, name: &str, shape: &[usize]) -> Tensors {
    t.iter()
        .map(|(n, s)| {
            if n == name {
                (n.clone(), shape.to_vec())
            } else {
                (n.clone(), s.clone())
            }
        })
        .collect()
}

fn on<T>(t: &Tensors, f: impl Fn(&WeightFile<'_>) -> T) -> T {
    let bytes = file(t);
    let wf = WeightFile::open("model.safetensors", &bytes).expect("open");
    f(&wf)
}

const SMALL: usize = 6;

fn small_talker() -> TalkerConfig {
    TalkerConfig {
        layers: 2,
        hidden: SMALL,
        heads: 2,
        kv_heads: 1,
        head_dim: 4,
        ..talker_1_7b()
    }
}

fn layer(t: &mut Tensors, p: &str) {
    put(t, &format!("{p}.self_attn.q_proj.weight"), &[8, SMALL]);
    put(t, &format!("{p}.self_attn.k_proj.weight"), &[4, SMALL]);
    put(t, &format!("{p}.self_attn.v_proj.weight"), &[4, SMALL]);
    put(t, &format!("{p}.self_attn.o_proj.weight"), &[SMALL, 8]);
    put(t, &format!("{p}.self_attn.q_norm.weight"), &[4]);
    put(t, &format!("{p}.self_attn.k_norm.weight"), &[4]);
    put(t, &format!("{p}.mlp.gate_proj.weight"), &[10, SMALL]);
    put(t, &format!("{p}.mlp.up_proj.weight"), &[10, SMALL]);
    put(t, &format!("{p}.mlp.down_proj.weight"), &[SMALL, 10]);
    put(t, &format!("{p}.input_layernorm.weight"), &[SMALL]);
    put(t, &format!("{p}.post_attention_layernorm.weight"), &[SMALL]);
}

fn talker_file() -> Tensors {
    let mut t = Vec::new();
    for i in 0..2 {
        layer(&mut t, &format!("talker.model.layers.{i}"));
    }
    put(&mut t, "talker.model.text_embedding.weight", &[20, 3]);
    put(&mut t, "talker.text_projection.linear_fc1.weight", &[5, 3]);
    put(&mut t, "talker.text_projection.linear_fc1.bias", &[5]);
    put(&mut t, "talker.text_projection.linear_fc2.weight", &[SMALL, 5]);
    put(&mut t, "talker.text_projection.linear_fc2.bias", &[SMALL]);
    put(&mut t, "talker.model.codec_embedding.weight", &[30, SMALL]);
    put(&mut t, "talker.model.norm.weight", &[SMALL]);
    put(&mut t, "talker.codec_head.weight", &[30, SMALL]);
    t
}

#[test]
fn a_talker_is_loaded_from_weights_that_fit() {
    let t = talker_file();
    let talker = on(&t, |wf| Talker::load(wf, small_talker())).expect("talker");
    assert_eq!(talker.text_vocab_rows(), 20);
    assert_eq!(talker.codec_vocab_rows(), 30);
    assert!(talker.embed_codec_ids(&[0, 29]).is_ok());
    assert_eq!(
        talker.embed_codec_ids(&[0, 30]).unwrap_err().message(),
        "invalid prompt: codec token id 30 is out of range (30 rows)"
    );
}

#[test]
fn a_talker_that_does_not_fit_is_refused() {
    let said = |t: &Tensors, cfg: TalkerConfig| {
        on(t, |wf| Talker::load(wf, cfg)).unwrap_err().message()
    };
    let t = talker_file();
    let cfg = small_talker();
    assert_eq!(
        said(&t, TalkerConfig { kv_heads: 0, ..cfg }),
        "invalid config: talker heads 2 / kv_heads 0 / head_dim 4 are inconsistent"
    );
    assert_eq!(
        said(&t, TalkerConfig { layers: 1, ..cfg }),
        "invalid config: config says 1 layers under talker.model.layers but the weights hold more"
    );
    assert_eq!(
        said(&t, TalkerConfig { layers: 3, ..cfg }),
        "invalid config: config says 3 layers under talker.model.layers but the weights hold fewer"
    );
    assert!(said(&t, TalkerConfig { layers: 0, ..cfg }).ends_with("fewer"));
    assert_eq!(
        said(&without(&t, "talker.codec_head.weight"), cfg),
        "tensor talker.codec_head.weight is missing from the weights"
    );
    assert_eq!(
        said(&reshaped(&t, "talker.codec_head.weight", &[29, SMALL]), cfg),
        "tensor talker.codec_head.weight has shape [29, 6], expected [30, 6]"
    );
    assert_eq!(
        said(&reshaped(&t, "talker.model.codec_embedding.weight", &[30, 5]), cfg),
        "tensor talker.model.codec_embedding.weight has shape [30, 5], expected [vocab, 6]"
    );
    assert_eq!(
        said(&reshaped(&t, "talker.text_projection.linear_fc1.weight", &[5, 4]), cfg),
        "tensor talker.text_projection.linear_fc1.weight has shape [5, 4], expected [5, 3]"
    );
    assert_eq!(
        said(&reshaped(&t, "talker.model.layers.1.self_attn.q_norm.weight", &[3]), cfg),
        "tensor talker.model.layers.1.self_attn.q_norm.weight has shape [3], expected [4]"
    );
    assert_eq!(
        said(&reshaped(&t, "talker.model.norm.weight", &[1, SMALL]), cfg),
        "tensor talker.model.norm.weight has shape [1, 6], expected 1D"
    );
}

#[test]
fn heads_must_divide() {
    assert!(heads_consistent(16, 8, 128));
    assert!(!heads_consistent(16, 5, 128));
    assert!(!heads_consistent(16, 8, 127));
    let ok = on(&talker_file(), |wf| {
        expect_layer_count(wf, "talker.model.layers", 2).is_ok()
    });
    assert!(ok);
}

#[test]
fn the_causal_mask_shows_the_past() {
    assert_eq!(
        causal_mask(3),
        vec![true, false, false, true, true, false, true, true, true]
    );
    assert_eq!(causal_mask(0), Vec::<bool>::new());
}

#[test]
fn a_cached_pass_writes_behind_the_last() {
    let cache = KvCache::new(28, 8, 448, 128);
    let half = Single {
        bits: 0.5f32.to_bits(),
    };
    let p = cache.run_cached(16, 10, 3, 12, half);
    assert_eq!((p.from, p.to, p.max, p.boosted), (10, 13, 448, 12));
    assert_eq!((p.q_heads, p.qk_heads, p.qkv_heads, p.group), (16, 24, 32, 2));
    assert_eq!(cache.run_cached(16, 0, 448, 500, half).boosted, 448);
    // A cache may be larger than what is ever written to it.
    let large = KvCache::new(28, 8, 4096, 128);
    assert_eq!(large.run_cached(16, 2000, 48, 0, half).to, 2048);
    for zero in [0.0f32, -0.0] {
        let none = Single {
            bits: zero.to_bits(),
        };
        assert_eq!(cache.run_cached(16, 0, 1, 12, none).boosted, 0);
    }
    let cut = talker_1_7b().forward_hidden();
    assert_eq!((cut.q_to, cut.k_to, cut.v_to, cut.group), (2048, 3072, 4096, 2));
}

fn small_predictor() -> CodePredictorConfig {
    CodePredictorConfig {
        layers: 1,
        hidden: SMALL,
        heads: 2,
        kv_heads: 1,
        head_dim: 4,
        embed_dim: 7,
        vocab: 9,
        groups: 3,
        ..code_pred_1_7b()
    }
}

fn predictor_file() -> Tensors {
    let mut t = Vec::new();
    let p = "talker.code_predictor";
    layer(&mut t, &format!("{p}.model.layers.0"));
    for g in 0..2 {
        put(&mut t, &format!("{p}.model.codec_embedding.{g}.weight"), &[9, 7]);
        put(&mut t, &format!("{p}.lm_head.{g}.weight"), &[9, SMALL]);
    }
    put(&mut t, &format!("{p}.small_to_mtp_projection.weight"), &[SMALL, 7]);
    put(&mut t, &format!("{p}.small_to_mtp_projection.bias"), &[SMALL]);
    put(&mut t, &format!("{p}.model.norm.weight"), &[SMALL]);
    t
}

#[test]
fn a_code_predictor_needs_a_head_for_each_group() {
    let t = predictor_file();
    let cfg = small_predictor();
    let cp = on(&t, |wf| CodePredictor::load(wf, cfg)).expect("code predictor");
    assert_eq!(cp.new_cache(), KvCache::new(1, 1, 17, 4));
    let said = |t: &Tensors, cfg: CodePredictorConfig| {
        on(t, |wf| CodePredictor::load(wf, cfg))
            .unwrap_err()
            .message()
    };
    assert_eq!(
        said(&t, CodePredictorConfig { groups: 1, ..cfg }),
        "invalid config: code predictor groups 1 / heads 2 / kv_heads 1 / head_dim 4 are inconsistent"
    );
    assert_eq!(
        said(&t, CodePredictorConfig { groups: 4, ..cfg }),
        "tensor talker.code_predictor.model.codec_embedding.2.weight is missing from the weights"
    );
    assert_eq!(
        said(&reshaped(&t, "talker.code_predictor.lm_head.1.weight", &[8, SMALL]), cfg),
        "tensor talker.code_predictor.lm_head.1.weight has shape [8, 6], expected [9, 6]"
    );
    assert!(said(&t, CodePredictorConfig { layers: 2, ..cfg }).ends_with("fewer"));
}

#[test]
fn the_passes_of_a_frame_fill_the_cache() {
    let cp = CodePredictor {
        cfg: code_pred_1_7b(),
    };
    let passes = cp.generate_codes();
    assert_eq!(passes.len(), 15);
    assert_eq!((passes[0].group, passes[0].from, passes[0].to), (0, 0, 2));
    for (g, p) in passes.iter().enumerate().skip(1) {
        assert_eq!((p.group, p.from, p.to), (g, passes[g - 1].to, g + 2));
    }
    assert!(passes[14].to <= cp.new_cache().max);
}

fn snake(t: &mut Tensors, p: &str) {
    put(t, &format!("{p}.alpha"), &[2]);
    put(t, &format!("{p}.beta"), &[2]);
}

fn conv(t: &mut Tensors, p: &str, kernel: usize) {
    put(t, &format!("{p}.weight"), &[1, 1, kernel]);
    put(t, &format!("{p}.bias"), &[1]);
}

fn decoder_file() -> Tensors {
    let mut t = Vec::new();
    for i in 0..8 {
        let p = format!("decoder.pre_transformer.layers.{i}");
        for w in ["q", "k", "v"] {
            put(&mut t, &format!("{p}.self_attn.{w}_proj.weight"), &[1024, 1]);
        }
        for w in ["self_attn.o_proj", "mlp.gate_proj", "mlp.up_proj", "mlp.down_proj"] {
            put(&mut t, &format!("{p}.{w}.weight"), &[1, 1]);
        }
        for w in [
            "input_layernorm.weight",
            "self_attn_layer_scale.scale",
            "post_attention_layernorm.weight",
            "mlp_layer_scale.scale",
        ] {
            put(&mut t, &format!("{p}.{w}"), &[1]);
        }
    }
    for (i, rate) in [(1, 8), (2, 5), (3, 4), (4, 3)] {
        let p = format!("decoder.decoder.{i}");
        snake(&mut t, &format!("{p}.block.0"));
        conv(&mut t, &format!("{p}.block.1.conv"), 2 * rate);
        for u in 2..5 {
            snake(&mut t, &format!("{p}.block.{u}.act1"));
            conv(&mut t, &format!("{p}.block.{u}.conv1.conv"), 7);
            snake(&mut t, &format!("{p}.block.{u}.act2"));
            conv(&mut t, &format!("{p}.block.{u}.conv2.conv"), 1);
        }
    }
    let q = "decoder.quantizer";
    put(&mut t, &format!("{q}.rvq_first.vq.layers.0._codebook.embedding_sum"), &[5, 2]);
    put(&mut t, &format!("{q}.rvq_first.vq.layers.0._codebook.cluster_usage"), &[5]);
    for g in 0..15 {
        put(&mut t, &format!("{q}.rvq_rest.vq.layers.{g}._codebook.embedding_sum"), &[4, 2]);
        put(&mut t, &format!("{q}.rvq_rest.vq.layers.{g}._codebook.cluster_usage"), &[4]);
    }
    put(&mut t, &format!("{q}.rvq_first.output_proj.weight"), &[1, 1, 1]);
    put(&mut t, &format!("{q}.rvq_rest.output_proj.weight"), &[1, 1, 1]);
    conv(&mut t, "decoder.pre_conv.conv", 3);
    let p = "decoder.pre_transformer";
    put(&mut t, &format!("{p}.input_proj.weight"), &[1, 1]);
    put(&mut t, &format!("{p}.input_proj.bias"), &[1]);
    put(&mut t, &format!("{p}.norm.weight"), &[1]);
    put(&mut t, &format!("{p}.output_proj.weight"), &[1, 1]);
    put(&mut t, &format!("{p}.output_proj.bias"), &[1]);
    for i in 0..2 {
        conv(&mut t, &format!("decoder.upsample.{i}.0.conv"), 2);
        let p = format!("decoder.upsample.{i}.1");
        conv(&mut t, &format!("{p}.dwconv.conv"), 7);
        for w in ["norm.weight", "norm.bias", "pwconv1.bias", "pwconv2.bias", "gamma"] {
            put(&mut t, &format!("{p}.{w}"), &[1]);
        }
        put(&mut t, &format!("{p}.pwconv1.weight"), &[1, 1]);
        put(&mut t, &format!("{p}.pwconv2.weight"), &[1, 1]);
    }
    conv(&mut t, "decoder.decoder.0.conv", 7);
    snake(&mut t, "decoder.decoder.5");
    conv(&mut t, "decoder.decoder.6.conv", 7);
    t
}

#[test]
fn a_decoder_knows_its_codebooks() {
    let t = decoder_file();
    let d = on(&t, Decoder12Hz::load).expect("decoder");
    assert_eq!(d.groups(), 16);
    assert!(d.validate_frames(&vec![vec![3; 16]]).is_ok());
    let mut frame = vec![3u32; 16];
    frame[0] = 4;
    assert!(d.validate_frames(&vec![frame.clone()]).is_ok());
    frame[2] = 4;
    assert_eq!(
        d.validate_frames(&vec![vec![0; 16], frame]).unwrap_err().message(),
        "invalid frames: frame 1 code 2 is 4, codebook has 4 entries"
    );
    assert_eq!(
        d.validate_frames(&vec![vec![0; 15]]).unwrap_err().message(),
        "invalid frames: frame 0 has 15 codes, expected 16"
    );
}

#[test]
fn a_decoder_that_does_not_fit_is_refused() {
    let t = decoder_file();
    let said = |t: &Tensors| on(t, Decoder12Hz::load).unwrap_err().message();
    // A convolution may do without a bias, a transposed one may not.
    assert!(on(&without(&t, "decoder.pre_conv.conv.bias"), Decoder12Hz::load).is_ok());
    assert_eq!(
        said(&without(&t, "decoder.upsample.1.0.conv.bias")),
        "tensor decoder.upsample.1.0.conv.bias is missing from the weights"
    );
    assert_eq!(
        said(&reshaped(&t, "decoder.decoder.2.block.1.conv.weight", &[1, 1, 4])),
        "tensor decoder.decoder.2.block.1.conv.weight has shape [1, 1, 4], expected kernel >= stride 5"
    );
    assert_eq!(
        said(&reshaped(&t, "decoder.decoder.5.beta", &[3])),
        "tensor decoder.decoder.5.beta has shape [3], expected [2]"
    );
    assert_eq!(
        said(&reshaped(&t, "decoder.pre_transformer.layers.7.self_attn.k_proj.weight", &[1023, 1])),
        "tensor decoder.pre_transformer.layers.7.self_attn.k_proj.weight has shape [1023, 1], expected [1024, hidden]"
    );
    for which in ["first", "rest"] {
        let proj = format!("decoder.quantizer.rvq_{which}.output_proj.weight");
        assert_eq!(
            said(&reshaped(&t, &proj, &[1, 1, 2])),
            format!("tensor {proj} has shape [1, 1, 2], expected [out, in, 1]")
        );
        assert_eq!(
            said(&reshaped(&t, &proj, &[1, 1])),
            format!("tensor {proj} has shape [1, 1], expected 3D")
        );
    }
    let usage = "decoder.quantizer.rvq_rest.vq.layers.14._codebook.cluster_usage";
    assert_eq!(
        said(&reshaped(&t, usage, &[5])),
        format!("tensor {usage} has shape [5], expected [4]")
    );
}

fn codec() -> Decoder12Hz {
    Decoder12Hz::with_codebooks(vec![2048; 16])
}

fn frames(n: usize) -> Vec<Vec<u32>> {
    (0..n as u32).map(|i| vec![i % 7; 16]).collect()
}

#[test]
fn decodes_are_padded_to_few_shapes() {
    assert_eq!([1, 32, 33, 64, 65, 260].map(bucket), [32, 32, 64, 64, 128, 512]);
    let d = codec();
    assert_eq!(d.decode(&frames(0)).unwrap(), None);
    let p = d.decode(&frames(40)).unwrap().expect("a plan");
    assert_eq!((p.frames, p.window_len, p.window_frames, p.context), (64, 40, 64, 0));
    assert_eq!(p.kept(64 * 1920), (0, 40 * 1920));
    let p = d.decode_window(&frames(130), 96).unwrap().expect("a plan");
    assert_eq!(
        p,
        DecodePlan {
            frames: 256,
            window_from: 56,
            window_len: 74,
            window_frames: 128,
            context: 40
        }
    );
    assert_eq!(p.kept(128 * 1920), (40 * 1920, 74 * 1920));
    let p = d.decode_window(&frames(50), 10).unwrap().expect("a plan");
    assert_eq!((p.window_from, p.context), (0, 10));
    assert_eq!(d.decode_window(&frames(50), 50).unwrap(), None);
    assert!(d.decode(&vec![vec![2048; 16]]).is_err());
}

#[test]
fn windowed_decodes_keep_the_end_of_the_whole() {
    let d = codec();
    // Sample `i` of everything is `i`; a window holds those it was upsampled to.
    for (n, keep) in [(1, 0), (50, 10), (95, 45), (130, 96), (260, 259), (40, 40), (40, 99)] {
        let all = d.decode(&frames(n)).unwrap().expect("a plan");
        let (a, b) = all.kept(all.window_frames * 1920);
        let whole: Vec<usize> = (a..b).collect();
        let tail: Vec<usize> = match d.decode_window(&frames(n), keep).unwrap() {
            Some(p) => {
                let (a, b) = p.kept(p.window_frames * 1920);
                (a..b).map(|i| p.window_from * 1920 + i).collect()
            }
            None => Vec::new(),
        };
        assert_eq!(tail, whole[keep.min(n) * 1920..]);
    }
}

#[test]
fn kept_samples_are_brought_into_range() {
    let d = codec();
    let p = d.decode_window(&frames(50), 49).unwrap().expect("a plan");
    // Forty frames of context, then the one that is kept; two samples each.
    assert_eq!((p.window_from, p.context, p.window_frames), (9, 40, 64));
    let bits = |x: f32| Single { bits: x.to_bits() };
    let mut up = vec![bits(7.0); 64 * 2];
    let cases = [
        (1.5, 1.0),
        (-1.5, -1.0),
        (1.0, 1.0),
        (-1.0, -1.0),
        (0.25, 0.25),
        (-0.0, -0.0),
        (f32::INFINITY, 1.0),
        (f32::NEG_INFINITY, -1.0),
    ];
    for (given, want) in cases {
        up[80] = bits(given);
        up[81] = bits(0.5);
        assert_eq!(p.keep(&up), vec![bits(want), bits(0.5)]);
    }
    up[80] = bits(f32::NAN);
    assert_eq!(p.keep(&up)[0], bits(f32::NAN));
}

#[test]
fn a_block_is_padded_with_its_last_frame() {
    let d = Decoder12Hz::with_codebooks(vec![10, 10]);
    let groups = d.embed_frames(&vec![vec![1, 2], vec![3, 4]], 4);
    assert_eq!(groups, vec![vec![1, 3, 3, 3], vec![2, 4, 4, 4]]);
}

#[test]
fn layers_keep_time_on_lengths() {
    let (t, kernel, dilation, stride) = (11, 7, 9, 5);
    assert_eq!(conv_padding(dilation, kernel), 54);
    assert_eq!(t + conv_padding(dilation, kernel) - dilation * (kernel - 1), t);
    let full = (t - 1) * stride + 10;
    assert_eq!(full - tconv_trim(10, stride), t * stride);
}

fn encoder_file() -> Tensors {
    let mut t = Vec::new();
    let l = "encoder.encoder.layers";
    for (i, kernel) in [(0, 7), (3, 8), (6, 10), (9, 12), (12, 16), (14, 3)] {
        conv(&mut t, &format!("{l}.{i}.conv"), kernel);
    }
    for i in [1, 4, 7, 10] {
        conv(&mut t, &format!("{l}.{i}.block.1.conv"), 3);
        conv(&mut t, &format!("{l}.{i}.block.3.conv"), 1);
    }
    for i in 0..8 {
        let p = format!("encoder.encoder_transformer.layers.{i}");
        for w in [
            "input_layernorm.weight",
            "input_layernorm.bias",
            "self_attn_layer_scale.scale",
            "post_attention_layernorm.weight",
            "post_attention_layernorm.bias",
            "mlp_layer_scale.scale",
        ] {
            put(&mut t, &format!("{p}.{w}"), &[1]);
        }
        for w in ["q_proj", "k_proj", "v_proj", "o_proj"] {
            put(&mut t, &format!("{p}.self_attn.{w}.weight"), &[1, 1]);
        }
        put(&mut t, &format!("{p}.mlp.fc1.weight"), &[1, 1]);
        put(&mut t, &format!("{p}.mlp.fc2.weight"), &[1, 1]);
    }
    conv(&mut t, "encoder.downsample.conv", 4);
    let s = "encoder.quantizer.semantic_residual_vector_quantizer";
    let a = "encoder.quantizer.acoustic_residual_vector_quantizer";
    put(&mut t, &format!("{s}.input_proj.weight"), &[1, 1, 1]);
    put(&mut t, &format!("{a}.input_proj.weight"), &[1, 1, 1]);
    put(&mut t, &format!("{s}.layers.0.codebook.embed_sum"), &[1, 1]);
    put(&mut t, &format!("{s}.layers.0.codebook.cluster_usage"), &[1]);
    for i in 0..15 {
        put(&mut t, &format!("{a}.layers.{i}.codebook.embed_sum"), &[1, 1]);
        put(&mut t, &format!("{a}.layers.{i}.codebook.cluster_usage"), &[1]);
    }
    t
}

#[test]
fn an_encoder_needs_every_stage() {
    let t = encoder_file();
    let enc = on(&t, Encoder12Hz::load).expect("encoder");
    assert_eq!(enc.encode(1920).unwrap(), 1);
    assert_eq!(enc.encode(1921).unwrap(), 2);
    assert_eq!(enc.encode(24_000).unwrap(), 13);
    assert_eq!([0, 1, 1920, 3841].map(frame_count), [0, 1, 1, 3]);
    assert_eq!(frame_count(usize::MAX), usize::MAX / 1920 + 1);
    assert_eq!(
        enc.encode(1919).unwrap_err().message(),
        "reference audio is too short: 80.0 ms, at least 80.0 ms needed"
    );
    let said = |t: &Tensors| on(t, Encoder12Hz::load).unwrap_err().message();
    assert_eq!(
        said(&reshaped(&t, "encoder.encoder.layers.12.conv.weight", &[1, 1, 7])),
        "tensor encoder.encoder.layers.12.conv.weight has shape [1, 1, 7], expected kernel >= stride 8"
    );
    for which in ["semantic", "acoustic"] {
        let proj = format!("encoder.quantizer.{which}_residual_vector_quantizer.input_proj.weight");
        assert_eq!(
            said(&reshaped(&t, &proj, &[1, 1, 3])),
            format!("tensor {proj} has shape [1, 1, 3], expected [out, in, 1]")
        );
    }
    let book = "encoder.quantizer.acoustic_residual_vector_quantizer.layers.14.codebook.embed_sum";
    assert_eq!(
        said(&without(&t, book)),
        format!("tensor {book} is missing from the weights")
    );
    assert_eq!(
        enc.frames(&vec![1, 2], &vec![vec![3, 4, 9], vec![5, 6, 9]]),
        vec![vec![1, 3, 5], vec![2, 4, 6]]
    );
}

#[test]
fn the_encoder_looks_back_250_positions() {
    let n = 260;
    let mask = window_mask(n);
    for i in 0..n {
        for j in 0..n {
            assert_eq!(mask[i * n + j], j <= i && i - j <= 250, "{i} {j}");
        }
    }
}

#[test]
fn the_encoder_gives_a_frame_for_every_1920_samples() {
    for samples in [1920usize, 1921, 3839, 3840, 100_000] {
        let mut t = samples;
        for (kernel, stride) in [(8, 4), (10, 5), (12, 6), (16, 8), (4, 2)] {
            let (left, right) = conv_pads(t, kernel, stride);
            t = (left + t + right - kernel) / stride + 1;
        }
        assert_eq!(t, samples.div_ceil(1920), "{samples}");
    }
}

fn tdnn(t: &mut Tensors, p: &str, mels: usize, kernel: usize) {
    put(t, &format!("{p}.weight"), &[1, mels, kernel]);
    put(t, &format!("{p}.bias"), &[1]);
}

fn speaker_file() -> Tensors {
    let mut t = Vec::new();
    tdnn(&mut t, "speaker_encoder.blocks.0.conv", 128, 5);
    for b in 1..4 {
        let p = format!("speaker_encoder.blocks.{b}");
        tdnn(&mut t, &format!("{p}.tdnn1.conv"), 1, 1);
        for i in 0..7 {
            tdnn(&mut t, &format!("{p}.res2net_block.blocks.{i}.conv"), 1, 3);
        }
        tdnn(&mut t, &format!("{p}.tdnn2.conv"), 1, 1);
        tdnn(&mut t, &format!("{p}.se_block.conv1"), 1, 1);
        tdnn(&mut t, &format!("{p}.se_block.conv2"), 1, 1);
    }
    tdnn(&mut t, "speaker_encoder.mfa.conv", 1, 1);
    tdnn(&mut t, "speaker_encoder.asp.tdnn.conv", 1, 1);
    tdnn(&mut t, "speaker_encoder.asp.conv", 1, 1);
    tdnn(&mut t, "speaker_encoder.fc", 1, 1);
    t
}

#[test]
fn a_speaker_encoder_needs_what_its_padding_mirrors() {
    let t = speaker_file();
    let s = on(&t, SpeakerEncoder::load).expect("speaker encoder");
    // The last block dilates by four: eight frames of padding, four a side.
    assert_eq!((s.n_mels, s.min_frames()), (128, 5));
    assert_eq!(s.encode(&vec![5; 128]).unwrap(), 5);
    assert_eq!(
        s.encode(&vec![9; 127]).unwrap_err().message(),
        "invalid config: speaker encoder expects 128 mel bands, got 127"
    );
    let mut rows = vec![9; 128];
    rows[100] = 8;
    assert_eq!(
        s.encode(&rows).unwrap_err().message(),
        "invalid prompt: mel rows have unequal lengths"
    );
    match s.encode(&vec![4; 128]) {
        Err(TtsError::ReferenceTooShort {
            samples,
            min_samples,
        }) => assert_eq!((samples, min_samples), (4 * 256, 5 * 256)),
        other => panic!("expected ReferenceTooShort, got {other:?}"),
    }
    let gone = without(&t, "speaker_encoder.fc.bias");
    assert_eq!(
        on(&gone, SpeakerEncoder::load).unwrap_err().message(),
        "tensor speaker_encoder.fc.bias is missing from the weights"
    );
}

#[test]
fn reflecting_padding_mirrors_both_ends() {
    assert_eq!([(1, 1), (1, 2), (1, 5), (4, 3)].map(|(d, k)| min_frames(d, k)), [1, 2, 3, 5]);
    assert_eq!(
        reflect_pad(10, 5),
        ReflectPad {
            left_to: 3,
            right_from: 6,
            right_to: 9
        }
    );
}

#[test]
fn mel_frames_and_their_mirrored_samples() {
    let p = log_mel(24_000).expect("a second");
    assert_eq!((p.samples, p.padded, p.frames), (24_000, 24_768, 93));
    assert_eq!(p.source(0), 384);
    assert_eq!(p.source(383), 1);
    assert_eq!(p.source(384), 0);
    assert_eq!(p.source(384 + 23_999), 23_999);
    assert_eq!(p.source(384 + 24_000), 23_998);
    assert_eq!(p.source(24_767), 23_615);
}

#[test]
fn bits_are_reversed_in_pairs() {
    assert_eq!(bit_reversal(3), vec![(1, 4), (3, 6)]);
    assert_eq!(bit_reversal(0), vec![]);
    let all = bit_reversal(10);
    assert_eq!(all.len(), (1024 - 32) / 2);
    for (i, j) in all {
        assert_eq!(j as u32, (i as u32).reverse_bits() >> 22);
    }
}

#[test]
fn a_low_pass_has_an_even_order() {
    assert_eq!([0, 1, 2, 3, 6, 7].map(filter_order), [2, 2, 2, 2, 6, 6]);
    assert_eq!([0, 1, 2, 3, 6, 7].map(stage_count), [1, 1, 1, 1, 3, 3]);
}

#[test]
fn the_first_failing_check_names_the_error() {
    let mut t = Vec::new();
    put(&mut t, "a", &[2, 3]);
    put(&mut t, "b", &[3]);
    let steps = |len: Dim| {
        vec![
            Step::Rows { name: "a".into() },
            Step::Optional { name: "c".into() },
            Step::Vector {
                name: "b".into(),
                len,
            },
            Step::Load {
                name: "c".into(),
                rank: 1,
            },
        ]
    };
    let same = |axis: usize| Dim::SameAs {
        name: "a".into(),
        axis,
    };
    assert_eq!(
        on(&t, |wf| check(wf, &steps(same(1)))).unwrap_err().message(),
        "tensor c is missing from the weights"
    );
    assert_eq!(
        on(&t, |wf| check(wf, &steps(same(0)))).unwrap_err().message(),
        "tensor b has shape [3], expected [2]"
    );
    assert!(on(&t, |wf| check(wf, &Vec::new())).is_ok());
}

#[test]
fn sizes_of_the_published_model() {
    let t = talker_1_7b();
    assert_eq!((t.layers, t.hidden, t.heads, t.kv_heads, t.head_dim), (28, 2048, 16, 8, 128));
    let c = code_pred_1_7b();
    assert_eq!((c.layers, c.hidden, c.embed_dim, c.vocab, c.groups), (5, 1024, 2048, 2048, 16));
    assert_eq!(
        c.rope_theta,
        Double {
            bits: 1e6f64.to_bits()
        }
    );
}
