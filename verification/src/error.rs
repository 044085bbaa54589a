//! What can go wrong, and how it is told.

use crate::text::{bracketed, decimal, digits, number_list};
use vstd::prelude::*;

verus! {

/// Samples per second of all audio behind the loader.
pub const SAMPLE_RATE: u32 = 24_000;

/// Everything this library refuses or fails at.
///
/// Lengths of reference audio are counted in samples at [`SAMPLE_RATE`]; the
/// message gives them in milliseconds.
#[derive(Debug)]
pub enum TtsError {
    Io { path: String, source: String },
    ModelFileMissing { path: String },
    BadSafetensors { path: String, detail: String },
    MissingTensor { name: String },
    TensorShape { name: String, expected: String, got: Vec<usize> },
    TensorDtype { name: String, dtype: String },
    Tokenizer(String),
    Gpu(String),
    BadWav { path: String, detail: String },
    UnsupportedWav { path: String, detail: String },
    BadSampleRate { path: String, rate: u32 },
    ReferenceTooShort { samples: usize, min_samples: usize },
    ReferenceTooLong { frames: usize, max: usize },
    EmptyText,
    EmptyReferenceText,
    InvalidPrompt(String),
    InvalidFrames(String),
    InvalidConfig(String),
    Numeric(String),
}

/// A [`TtsError`] with its texts as character sequences.
pub enum ErrorView {
    Io { path: Seq<char>, source: Seq<char> },
    ModelFileMissing { path: Seq<char> },
    BadSafetensors { path: Seq<char>, detail: Seq<char> },
    MissingTensor { name: Seq<char> },
    TensorShape { name: Seq<char>, expected: Seq<char>, got: Seq<usize> },
    TensorDtype { name: Seq<char>, dtype: Seq<char> },
    Tokenizer(Seq<char>),
    Gpu(Seq<char>),
    BadWav { path: Seq<char>, detail: Seq<char> },
    UnsupportedWav { path: Seq<char>, detail: Seq<char> },
    BadSampleRate { path: Seq<char>, rate: u32 },
    ReferenceTooShort { samples: usize, min_samples: usize },
    ReferenceTooLong { frames: usize, max: usize },
    EmptyText,
    EmptyReferenceText,
    InvalidPrompt(Seq<char>),
    InvalidFrames(Seq<char>),
    InvalidConfig(Seq<char>),
    Numeric(Seq<char>),
}

impl View for TtsError {
    type V = ErrorView;

    open spec fn view(&self) -> ErrorView {
        match *self {
            TtsError::Io { path, source } => ErrorView::Io { path: path@, source: source@ },
            TtsError::ModelFileMissing { path } => ErrorView::ModelFileMissing { path: path@ },
            TtsError::BadSafetensors { path, detail } => ErrorView::BadSafetensors {
                path: path@,
                detail: detail@,
            },
            TtsError::MissingTensor { name } => ErrorView::MissingTensor { name: name@ },
            TtsError::TensorShape { name, expected, got } => ErrorView::TensorShape {
                name: name@,
                expected: expected@,
                got: got@,
            },
            TtsError::TensorDtype { name, dtype } => ErrorView::TensorDtype {
                name: name@,
                dtype: dtype@,
            },
            TtsError::Tokenizer(detail) => ErrorView::Tokenizer(detail@),
            TtsError::Gpu(detail) => ErrorView::Gpu(detail@),
            TtsError::BadWav { path, detail } => ErrorView::BadWav { path: path@, detail: detail@ },
            TtsError::UnsupportedWav { path, detail } => ErrorView::UnsupportedWav {
                path: path@,
                detail: detail@,
            },
            TtsError::BadSampleRate { path, rate } => ErrorView::BadSampleRate { path: path@, rate },
            TtsError::ReferenceTooShort { samples, min_samples } => ErrorView::ReferenceTooShort {
                samples,
                min_samples,
            },
            TtsError::ReferenceTooLong { frames, max } => ErrorView::ReferenceTooLong {
                frames,
                max,
            },
            TtsError::EmptyText => ErrorView::EmptyText,
            TtsError::EmptyReferenceText => ErrorView::EmptyReferenceText,
            TtsError::InvalidPrompt(detail) => ErrorView::InvalidPrompt(detail@),
            TtsError::InvalidFrames(detail) => ErrorView::InvalidFrames(detail@),
            TtsError::InvalidConfig(detail) => ErrorView::InvalidConfig(detail@),
            TtsError::Numeric(detail) => ErrorView::Numeric(detail@),
        }
    }
}

/// How a message names the file it is about. An empty path names no file.
pub open spec fn prefix(path: Seq<char>) -> Seq<char> {
    if path.len() == 0 {
        Seq::empty()
    } else {
        path + ": "@
    }
}

/// The path and a colon, or nothing where the path is empty: a bad rate can be
/// reported without a file to name.
pub fn at(path: &str) -> (r: String)
    ensures
        r@ == prefix(path@),
{
    if path.unicode_len() == 0 {
        String::new()
    } else {
        path.to_string().concat(": ")
    }
}

/// Tenths of a millisecond that `n` samples last, to the nearest, a tie to the
/// even one.
pub open spec fn tenths_of_ms(n: nat) -> nat {
    let whole = 5 * n / 12;
    let rest = 5 * n % 12;
    if rest > 6 || (rest == 6 && whole % 2 == 1) {
        whole + 1
    } else {
        whole
    }
}

/// The length of `n` samples in milliseconds, with one decimal.
pub open spec fn ms_text(n: nat) -> Seq<char> {
    digits(tenths_of_ms(n) / 10) + "."@ + digits(tenths_of_ms(n) % 10)
}

/// The length of `n` samples in milliseconds, with one decimal.
pub fn milliseconds(n: usize) -> (r: String)
    ensures
        r@ == ms_text(n as nat),
{
    let five: u128 = n as u128 * 5;
    let whole: u64 = (five / 12) as u64;
    let rest: u64 = (five % 12) as u64;
    let up: bool = rest > 6 || (rest == 6 && whole % 2 == 1);
    let tenths: u64 = if up {
        whole + 1
    } else {
        whole
    };
    decimal(tenths / 10).concat(".").concat(decimal(tenths % 10).as_str())
}

/// The message of an error.
pub open spec fn message_of(e: ErrorView) -> Seq<char> {
    match e {
        ErrorView::Io { path, source } => prefix(path) + source,
        ErrorView::ModelFileMissing { path } => prefix(path) + "model file not found"@,
        ErrorView::BadSafetensors { path, detail } => prefix(path)
            + "not a valid safetensors file ("@ + detail + ")"@,
        ErrorView::MissingTensor { name } => "tensor "@ + name + " is missing from the weights"@,
        ErrorView::TensorShape { name, expected, got } => "tensor "@ + name + " has shape "@
            + bracketed(got) + ", expected "@ + expected,
        ErrorView::TensorDtype { name, dtype } => "tensor "@ + name + " has unsupported dtype "@
            + dtype,
        ErrorView::Tokenizer(detail) => "tokenizer: "@ + detail,
        ErrorView::Gpu(detail) => "gpu: "@ + detail,
        ErrorView::BadWav { path, detail } => prefix(path) + "bad wav file ("@ + detail + ")"@,
        ErrorView::UnsupportedWav { path, detail } => prefix(path) + "unsupported wav format ("@
            + detail + ")"@,
        ErrorView::BadSampleRate { path, rate } => prefix(path) + "sample rate "@ + digits(
            rate as nat,
        ) + " Hz is not usable"@,
        ErrorView::ReferenceTooShort { samples, min_samples } => "reference audio is too short: "@
            + ms_text(samples as nat) + " ms, at least "@ + ms_text(min_samples as nat)
            + " ms needed"@,
        ErrorView::ReferenceTooLong { frames, max } => "reference audio is too long: "@ + digits(
            frames as nat,
        ) + " frames, at most "@ + digits(max as nat) + " allowed"@,
        ErrorView::EmptyText => "text is empty"@,
        ErrorView::EmptyReferenceText => "reference text is empty"@,
        ErrorView::InvalidPrompt(detail) => "invalid prompt: "@ + detail,
        ErrorView::InvalidFrames(detail) => "invalid frames: "@ + detail,
        ErrorView::InvalidConfig(detail) => "invalid config: "@ + detail,
        ErrorView::Numeric(detail) => "numeric error: "@ + detail,
    }
}

impl TtsError {
    /// The error in words, on one line.
    pub fn message(&self) -> (r: String)
        ensures
            r@ == message_of(self@),
    {
        match self {
            TtsError::Io { path, source } => at(path.as_str()).concat(source.as_str()),
            TtsError::ModelFileMissing { path } => at(path.as_str()).concat("model file not found"),
            TtsError::BadSafetensors { path, detail } => at(path.as_str()).concat(
                "not a valid safetensors file (",
            ).concat(detail.as_str()).concat(")"),
            TtsError::MissingTensor { name } => "tensor ".to_string().concat(name.as_str()).concat(
                " is missing from the weights",
            ),
            TtsError::TensorShape { name, expected, got } => "tensor ".to_string().concat(
                name.as_str(),
            ).concat(" has shape ").concat(number_list(got.as_slice()).as_str()).concat(
                ", expected ",
            ).concat(expected.as_str()),
            TtsError::TensorDtype { name, dtype } => "tensor ".to_string().concat(
                name.as_str(),
            ).concat(" has unsupported dtype ").concat(dtype.as_str()),
            TtsError::Tokenizer(detail) => "tokenizer: ".to_string().concat(detail.as_str()),
            TtsError::Gpu(detail) => "gpu: ".to_string().concat(detail.as_str()),
            TtsError::BadWav { path, detail } => at(path.as_str()).concat("bad wav file (").concat(
                detail.as_str(),
            ).concat(")"),
            TtsError::UnsupportedWav { path, detail } => at(path.as_str()).concat(
                "unsupported wav format (",
            ).concat(detail.as_str()).concat(")"),
            TtsError::BadSampleRate { path, rate } => at(path.as_str()).concat(
                "sample rate ",
            ).concat(decimal(*rate as u64).as_str()).concat(" Hz is not usable"),
            TtsError::ReferenceTooShort { samples, min_samples } =>
                "reference audio is too short: ".to_string().concat(
                milliseconds(*samples).as_str(),
            ).concat(" ms, at least ").concat(milliseconds(*min_samples).as_str()).concat(
                " ms needed",
            ),
            TtsError::ReferenceTooLong { frames, max } =>
                "reference audio is too long: ".to_string().concat(
                decimal(*frames as u64).as_str(),
            ).concat(" frames, at most ").concat(decimal(*max as u64).as_str()).concat(" allowed"),
            TtsError::EmptyText => "text is empty".to_string(),
            TtsError::EmptyReferenceText => "reference text is empty".to_string(),
            TtsError::InvalidPrompt(detail) => "invalid prompt: ".to_string().concat(
                detail.as_str(),
            ),
            TtsError::InvalidFrames(detail) => "invalid frames: ".to_string().concat(
                detail.as_str(),
            ),
            TtsError::InvalidConfig(detail) => "invalid config: ".to_string().concat(
                detail.as_str(),
            ),
            TtsError::Numeric(detail) => "numeric error: ".to_string().concat(detail.as_str()),
        }
    }
}

/// A length is told to the nearest tenth of a millisecond at 24 samples each: it
/// is off by no more than half a tenth, and by that only where the tenth is
/// even.
pub proof fn lengths_are_told_to_the_tenth(n: nat)
    ensures
        -120 <= 24 * tenths_of_ms(n) * 10 - n * 100 <= 120,
        24 * tenths_of_ms(n) * 10 - n * 100 == 120 || 24 * tenths_of_ms(n) * 10 - n * 100 == -120
            ==> tenths_of_ms(n) % 2 == 0,
        SAMPLE_RATE == 24 * 1000,
        exists|whole: nat, tenth: nat|
            tenth < 10 && 10 * whole + tenth == tenths_of_ms(n) && ms_text(n) == #[trigger] digits(
                whole,
            ) + "."@ + #[trigger] digits(tenth),
{
    let t = tenths_of_ms(n);
    assert(10 * (t / 10) + t % 10 == t);
    assert(ms_text(n) == digits(t / 10) + "."@ + digits(t % 10));
}

/// A message names the file it is about, unless there is none to name.
pub proof fn messages_name_their_file(path: Seq<char>, detail: Seq<char>, rate: u32)
    ensures
        path.len() > 0 ==> prefix(path) == path + ": "@,
        path.len() == 0 ==> prefix(path) == path,
        message_of(ErrorView::Io { path, source: detail }) == prefix(path) + detail,
        message_of(ErrorView::ModelFileMissing { path }) == prefix(path) + "model file not found"@,
        message_of(ErrorView::BadWav { path, detail }) == prefix(path) + "bad wav file ("@ + detail
            + ")"@,
        message_of(ErrorView::UnsupportedWav { path, detail }) == prefix(path)
            + "unsupported wav format ("@ + detail + ")"@,
        message_of(ErrorView::BadSafetensors { path, detail }) == prefix(path)
            + "not a valid safetensors file ("@ + detail + ")"@,
        message_of(ErrorView::BadSampleRate { path, rate }) == prefix(path) + "sample rate "@
            + digits(rate as nat) + " Hz is not usable"@,
{
    if path.len() == 0 {
        assert(prefix(path) =~= path);
    }
}

/// A message of two lengths tells the one that was given first, then the one
/// that is asked for; a message about a tensor names it.
pub proof fn messages_tell_what_was_given(
    samples: usize,
    min_samples: usize,
    frames: usize,
    max: usize,
    name: Seq<char>,
    text: Seq<char>,
    got: Seq<usize>,
)
    ensures
        message_of(ErrorView::ReferenceTooShort { samples, min_samples })
            == "reference audio is too short: "@ + ms_text(samples as nat) + " ms, at least "@
            + ms_text(min_samples as nat) + " ms needed"@,
        message_of(ErrorView::ReferenceTooLong { frames, max }) == "reference audio is too long: "@
            + digits(frames as nat) + " frames, at most "@ + digits(max as nat) + " allowed"@,
        message_of(ErrorView::MissingTensor { name }) == "tensor "@ + name
            + " is missing from the weights"@,
        message_of(ErrorView::TensorShape { name, expected: text, got }) == "tensor "@ + name
            + " has shape "@ + bracketed(got) + ", expected "@ + text,
        message_of(ErrorView::TensorDtype { name, dtype: text }) == "tensor "@ + name
            + " has unsupported dtype "@ + text,
        message_of(ErrorView::Tokenizer(text)) == "tokenizer: "@ + text,
        message_of(ErrorView::Gpu(text)) == "gpu: "@ + text,
        message_of(ErrorView::InvalidPrompt(text)) == "invalid prompt: "@ + text,
        message_of(ErrorView::InvalidFrames(text)) == "invalid frames: "@ + text,
        message_of(ErrorView::InvalidConfig(text)) == "invalid config: "@ + text,
        message_of(ErrorView::Numeric(text)) == "numeric error: "@ + text,
        message_of(ErrorView::EmptyText) == "text is empty"@,
        message_of(ErrorView::EmptyReferenceText) == "reference text is empty"@,
{
}

} // verus!
