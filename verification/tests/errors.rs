//! Bad input reaches the caller as a `TtsError` instead of a panic: hand-built
//! WAV files, a too-short mel input, a git-lfs pointer where a safetensors file
//! should be, and the messages.

use qwen3_tts::audio::{load_wav, parse_fmt, u16_at, u32_at, write_wav_24k, Wav, WavSamples};
use qwen3_tts::error::milliseconds;
use qwen3_tts::mel;
use qwen3_tts::resample::{resample, Block, ResamplePlan};
use qwen3_tts::weights::WeightFile;
use qwen3_tts::TtsError;

/// RIFF/WAVE with one `fmt ` chunk (16 bytes) and one `data` chunk.
fn wav(format: u16, channels: u16, rate: u32, bits: u16, data: &[u8]) -> Vec<u8> {
    let block = channels * bits / 8;
    let mut b = Vec::new();
    b.extend_from_slice(b"RIFF");
    b.extend_from_slice(&(36 + data.len() as u32).to_le_bytes());
    b.extend_from_slice(b"WAVEfmt ");
    b.extend_from_slice(&16u32.to_le_bytes());
    b.extend_from_slice(&format.to_le_bytes());
    b.extend_from_slice(&channels.to_le_bytes());
    b.extend_from_slice(&rate.to_le_bytes());
    b.extend_from_slice(&(rate * block as u32).to_le_bytes());
    b.extend_from_slice(&block.to_le_bytes());
    b.extend_from_slice(&bits.to_le_bytes());
    b.extend_from_slice(b"data");
    b.extend_from_slice(&(data.len() as u32).to_le_bytes());
    b.extend_from_slice(data);
    b
}

fn pcm16(samples: &[i16]) -> Vec<u8> {
    samples.iter().flat_map(|s| s.to_le_bytes()).collect()
}

/// The mono samples of a file: the mean over the channels of each frame.
fn mono(w: &Wav) -> Vec<f32> {
    match &w.samples {
        WavSamples::Pcm { sums, bits } => {
            let scale = (1i64 << (bits - 1)) as f32;
            sums.iter()
                .map(|&s| s as f32 / scale / w.channels as f32)
                .collect()
        }
        WavSamples::Float { words } => words
            .chunks_exact(w.channels)
            .map(|f| f.iter().map(|&b| f32::from_bits(b)).sum::<f32>() / w.channels as f32)
            .collect(),
    }
}

#[test]
fn load_wav_rejects_non_riff() {
    let err = load_wav("junk.wav", b"this is not a wav file at all").unwrap_err();
    assert!(matches!(err, TtsError::BadWav { .. }), "{err:?}");
}

#[test]
fn load_wav_rejects_truncated_fmt_chunk() {
    let full = wav(1, 1, 24_000, 16, &pcm16(&[0, 1, 2, 3]));
    let err = load_wav("trunc_fmt.wav", &full[..24]).unwrap_err();
    match err {
        TtsError::BadWav { detail, .. } => assert!(detail.contains("fmt"), "{detail}"),
        other => panic!("expected BadWav, got {other:?}"),
    }
}

#[test]
fn load_wav_rejects_truncated_data_chunk() {
    let mut full = wav(1, 1, 24_000, 16, &pcm16(&[0, 1, 2, 3]));
    full.truncate(full.len() - 3);
    let err = load_wav("trunc_data.wav", &full).unwrap_err();
    match err {
        TtsError::BadWav { detail, .. } => assert!(detail.contains("data"), "{detail}"),
        other => panic!("expected BadWav, got {other:?}"),
    }
}

#[test]
fn load_wav_rejects_8_bit() {
    let bytes = wav(1, 1, 24_000, 8, &[128, 255, 0, 64]);
    let err = load_wav("8bit.wav", &bytes).unwrap_err();
    assert!(matches!(err, TtsError::UnsupportedWav { .. }), "{err:?}");
}

#[test]
fn load_wav_rejects_zero_sample_rate() {
    let bytes = wav(1, 1, 0, 16, &pcm16(&[1, 2, 3, 4]));
    let err = load_wav("rate0.wav", &bytes).unwrap_err();
    assert!(
        matches!(err, TtsError::BadSampleRate { rate: 0, .. }),
        "{err:?}"
    );
}

#[test]
fn load_wav_rejects_absurd_sample_rate() {
    let bytes = wav(1, 1, 10_000_000, 16, &pcm16(&[1, 2, 3, 4]));
    let err = load_wav("rate_huge.wav", &bytes).unwrap_err();
    assert!(
        matches!(
            err,
            TtsError::BadSampleRate {
                rate: 10_000_000,
                ..
            }
        ),
        "{err:?}"
    );
}

#[test]
fn load_wav_rejects_empty_data() {
    let bytes = wav(1, 1, 24_000, 16, &[]);
    let err = load_wav("empty.wav", &bytes).unwrap_err();
    match err {
        TtsError::BadWav { detail, .. } => assert!(detail.contains("no samples"), "{detail}"),
        other => panic!("expected BadWav, got {other:?}"),
    }
}

#[test]
fn load_wav_reads_24_bit_pcm() {
    let data: Vec<u8> = [0x7F_FF_FFi32, -0x80_00_00, 0, 0x40_00_00]
        .iter()
        .flat_map(|v| v.to_le_bytes()[..3].to_vec())
        .collect();
    let bytes = wav(1, 1, 48_000, 24, &data);
    let w = load_wav("24bit.wav", &bytes).expect("24-bit wav");
    let samples = mono(&w);
    assert_eq!(w.rate, 48_000);
    assert_eq!(samples.len(), 4);
    assert!(
        (samples[0] - 8388607.0 / 8388608.0).abs() < 1e-6,
        "{}",
        samples[0]
    );
    assert_eq!(samples[1], -1.0);
    assert_eq!(samples[2], 0.0);
    assert_eq!(samples[3], 0.5);
}

#[test]
fn load_wav_reads_float32_and_downmixes_stereo() {
    let data: Vec<u8> = [0.5f32, -0.5, -0.25, 0.75]
        .iter()
        .flat_map(|v| v.to_le_bytes())
        .collect();
    let bytes = wav(3, 2, 24_000, 32, &data);
    let w = load_wav("f32.wav", &bytes).expect("float wav");
    assert_eq!(w.rate, 24_000);
    assert_eq!(mono(&w), vec![0.0, 0.25]);
}

#[test]
fn load_wav_reads_16_bit_pcm() {
    let bytes = wav(1, 1, 16_000, 16, &pcm16(&[i16::MIN, 0, 16384]));
    let w = load_wav("16bit.wav", &bytes).expect("16-bit wav");
    assert_eq!(w.rate, 16_000);
    assert_eq!(mono(&w), vec![-1.0, 0.0, 0.5]);
}

#[test]
fn load_wav_reads_32_bit_pcm_and_sums_channels() {
    let data: Vec<u8> = [i32::MIN, i32::MIN, 1 << 30, -(1 << 29)]
        .iter()
        .flat_map(|v| v.to_le_bytes())
        .collect();
    let w = load_wav("32bit.wav", &wav(1, 2, 44_100, 32, &data)).expect("32-bit wav");
    assert_eq!(w.channels, 2);
    match &w.samples {
        WavSamples::Pcm { sums, bits } => {
            assert_eq!(sums, &vec![2 * i32::MIN as i64, 1 << 29]);
            assert_eq!(*bits, 32);
        }
        other => panic!("expected integer samples, got {other:?}"),
    }
    assert_eq!(mono(&w), vec![-1.0, 0.125]);
}

#[test]
fn load_wav_walks_past_other_chunks_with_padding() {
    let inner = wav(1, 1, 8_000, 16, &pcm16(&[5, -6]));
    let mut b = inner[..12].to_vec();
    b.extend_from_slice(b"LIST");
    b.extend_from_slice(&3u32.to_le_bytes());
    b.extend_from_slice(&[1, 2, 3, 0]);
    b.extend_from_slice(&inner[12..]);
    let w = load_wav("list.wav", &b).expect("wav with a list chunk");
    match &w.samples {
        WavSamples::Pcm { sums, .. } => assert_eq!(sums, &vec![5, -6]),
        other => panic!("expected integer samples, got {other:?}"),
    }
}

#[test]
fn load_wav_reads_the_extensible_format() {
    let mut body = Vec::new();
    for v in [0xFFFEu16, 1] {
        body.extend_from_slice(&v.to_le_bytes());
    }
    body.extend_from_slice(&24_000u32.to_le_bytes());
    body.extend_from_slice(&48_000u32.to_le_bytes());
    for v in [2u16, 16, 22, 16] {
        body.extend_from_slice(&v.to_le_bytes());
    }
    body.extend_from_slice(&4u32.to_le_bytes());
    body.extend_from_slice(&1u16.to_le_bytes());
    let short = parse_fmt("ext.wav", &body[..25]).unwrap_err();
    assert!(short.message().contains("extensible"), "{short:?}");
    body.extend_from_slice(&[0; 14]);
    let fmt = parse_fmt("ext.wav", &body).expect("extensible format");
    assert_eq!(
        (fmt.format, fmt.channels, fmt.rate, fmt.bits),
        (1, 1, 24_000, 16)
    );
}

#[test]
fn written_files_read_back_as_they_were() {
    let samples: Vec<i16> = vec![0, 1, -1, i16::MAX, i16::MIN, 12345];
    let bytes = write_wav_24k(&samples);
    assert_eq!(bytes, wav(1, 1, 24_000, 16, &pcm16(&samples)));
    let w = load_wav("out.wav", &bytes).expect("what was written");
    assert_eq!((w.rate, w.channels), (24_000, 1));
    match w.samples {
        WavSamples::Pcm { sums, bits } => {
            assert_eq!(bits, 16);
            assert_eq!(
                sums,
                samples.iter().map(|&s| s as i64).collect::<Vec<i64>>()
            );
        }
        other => panic!("expected integer samples, got {other:?}"),
    }
}

#[test]
fn words_are_read_little_end_first() {
    assert_eq!(u16_at(&[9, 0x34, 0x12], 1), 0x1234);
    assert_eq!(u32_at(&[0x78, 0x56, 0x34, 0x12], 0), 0x1234_5678);
}

#[test]
fn log_mel_rejects_too_short_input() {
    let err = mel::log_mel(100).unwrap_err();
    match err {
        TtsError::ReferenceTooShort {
            samples,
            min_samples,
        } => {
            assert!(samples < min_samples, "{samples} vs {min_samples}");
            let samples_ms = samples as f64 * 1000.0 / 24000.0;
            assert!((samples_ms - 100.0 * 1000.0 / 24000.0).abs() < 1e-9);
        }
        other => panic!("expected ReferenceTooShort, got {other:?}"),
    }
}

#[test]
fn log_mel_accepts_min_samples() {
    let plan = mel::log_mel(mel::MIN_SAMPLES).expect("MIN_SAMPLES is enough");
    assert_eq!(mel::N_MELS, 128);
    assert!(plan.frames > 0);
    assert!(mel::log_mel(mel::MIN_SAMPLES - 1).is_err());
}

#[test]
fn resample_rejects_zero_rates() {
    let zero = |r: Result<ResamplePlan, TtsError>| {
        matches!(r, Err(TtsError::BadSampleRate { rate: 0, .. }))
    };
    assert!(zero(resample(10, 0, 24_000)));
    assert!(zero(resample(10, 16_000, 0)));
    assert!(matches!(
        resample(2, 24_000, 24_000).unwrap(),
        ResamplePlan::Copy
    ));
}

#[test]
fn resampled_input_is_cut_into_blocks() {
    match resample(2500, 16_000, 24_000).unwrap() {
        ResamplePlan::Blocks(v) => {
            let cuts: Vec<(usize, usize)> = v.iter().map(|b: &Block| (b.from, b.to)).collect();
            assert_eq!(cuts, vec![(0, 1024), (1024, 2048), (2048, 2500)]);
        }
        other => panic!("expected blocks, got {other:?}"),
    }
}

#[test]
fn weight_file_rejects_git_lfs_pointer() {
    let pointer = b"version https://git-lfs.github.com/spec/v1\n\
                    oid sha256:0000000000000000000000000000000000000000000000000000000000000000\n\
                    size 1234567890\n";
    let path = "/tmp/model.safetensors";
    let err = WeightFile::open(path, pointer)
        .err()
        .expect("lfs pointer must be rejected");
    match &err {
        TtsError::BadSafetensors { path: p, .. } => assert_eq!(p, path),
        other => panic!("expected BadSafetensors, got {other:?}"),
    }
    assert!(err.message().contains(path));
}

#[test]
fn display_strings_name_the_path() {
    let path = String::from("C:/voices/ref.wav");
    let cases = vec![
        TtsError::Io {
            path: path.clone(),
            source: "boom".into(),
        },
        TtsError::ModelFileMissing { path: path.clone() },
        TtsError::BadSafetensors {
            path: path.clone(),
            detail: "x".into(),
        },
        TtsError::BadWav {
            path: path.clone(),
            detail: "x".into(),
        },
        TtsError::UnsupportedWav {
            path: path.clone(),
            detail: "x".into(),
        },
        TtsError::BadSampleRate {
            path: path.clone(),
            rate: 7,
        },
    ];
    for e in &cases {
        let s = e.message();
        assert!(!s.is_empty());
        assert!(s.contains("C:/voices/ref.wav"), "{s}");
        assert!(!s.contains('\n'), "{s}");
    }
    let rest = vec![
        TtsError::MissingTensor { name: "t.w".into() },
        TtsError::TensorShape {
            name: "t.w".into(),
            expected: "2D".into(),
            got: vec![3],
        },
        TtsError::TensorDtype {
            name: "t.w".into(),
            dtype: "I8".into(),
        },
        TtsError::Tokenizer("x".into()),
        TtsError::Gpu("x".into()),
        TtsError::ReferenceTooShort {
            samples: 24,
            min_samples: 48,
        },
        TtsError::ReferenceTooLong { frames: 3, max: 2 },
        TtsError::EmptyText,
        TtsError::EmptyReferenceText,
        TtsError::InvalidPrompt("x".into()),
        TtsError::InvalidFrames("x".into()),
        TtsError::InvalidConfig("x".into()),
        TtsError::Numeric("x".into()),
    ];
    for e in rest {
        let s: String = e.message();
        assert!(!s.is_empty());
        assert!(!s.contains('\n'), "{s}");
    }
}

#[test]
fn messages_are_exact() {
    let said = |e: TtsError| e.message();
    let p = || String::from("a/b.wav");
    assert_eq!(
        said(TtsError::Io {
            path: p(),
            source: "boom".into()
        }),
        "a/b.wav: boom"
    );
    assert_eq!(
        said(TtsError::ModelFileMissing { path: p() }),
        "a/b.wav: model file not found"
    );
    assert_eq!(
        said(TtsError::BadSafetensors {
            path: p(),
            detail: "x".into()
        }),
        "a/b.wav: not a valid safetensors file (x)"
    );
    assert_eq!(
        said(TtsError::MissingTensor { name: "t.w".into() }),
        "tensor t.w is missing from the weights"
    );
    assert_eq!(
        said(TtsError::TensorShape {
            name: "t.w".into(),
            expected: "2D".into(),
            got: vec![3, 40, 5]
        }),
        format!(
            "tensor t.w has shape {:?}, expected 2D",
            vec![3usize, 40, 5]
        )
    );
    assert_eq!(
        said(TtsError::TensorDtype {
            name: "t.w".into(),
            dtype: "I8".into()
        }),
        "tensor t.w has unsupported dtype I8"
    );
    assert_eq!(said(TtsError::Tokenizer("x".into())), "tokenizer: x");
    assert_eq!(said(TtsError::Gpu("x".into())), "gpu: x");
    assert_eq!(
        said(TtsError::BadWav {
            path: p(),
            detail: "x".into()
        }),
        "a/b.wav: bad wav file (x)"
    );
    assert_eq!(
        said(TtsError::UnsupportedWav {
            path: p(),
            detail: "x".into()
        }),
        "a/b.wav: unsupported wav format (x)"
    );
    assert_eq!(
        said(TtsError::BadSampleRate { path: p(), rate: 7 }),
        "a/b.wav: sample rate 7 Hz is not usable"
    );
    assert_eq!(
        said(TtsError::BadSampleRate {
            path: String::new(),
            rate: 0
        }),
        "sample rate 0 Hz is not usable"
    );
    assert_eq!(
        said(TtsError::ReferenceTooShort {
            samples: 100,
            min_samples: 385
        }),
        "reference audio is too short: 4.2 ms, at least 16.0 ms needed"
    );
    assert_eq!(
        said(TtsError::ReferenceTooLong {
            frames: 2001,
            max: 2000
        }),
        "reference audio is too long: 2001 frames, at most 2000 allowed"
    );
    assert_eq!(said(TtsError::EmptyText), "text is empty");
    assert_eq!(
        said(TtsError::EmptyReferenceText),
        "reference text is empty"
    );
    assert_eq!(
        said(TtsError::InvalidPrompt("x".into())),
        "invalid prompt: x"
    );
    assert_eq!(
        said(TtsError::InvalidFrames("x".into())),
        "invalid frames: x"
    );
    assert_eq!(
        said(TtsError::InvalidConfig("x".into())),
        "invalid config: x"
    );
    assert_eq!(said(TtsError::Numeric("x".into())), "numeric error: x");
}

#[test]
fn milliseconds_round_as_formatting_does() {
    for n in 0..5000usize {
        let ms = n as f64 * 1000.0 / 24000.0;
        assert_eq!(milliseconds(n), format!("{ms:.1}"), "{n} samples");
    }
}
