//! What a request is held to before the model runs, and what is done around
//! the model.

use crate::code_predictor::{
    code_pred_1_7b, code_pred_1_7b_cfg, predictor_error, CodePredictor, CodePredictorConfig,
};
use crate::decoder::{
    codebook_sizes, decoder_steps, frames_error_from, in_range, kept_samples, plan_all, plan_from,
    tail_plan, whole_plan, DecodePlan, Decoder12Hz, Model, SAMPLES_PER_FRAME,
};
use crate::error::{message_of, ErrorView, TtsError};
use crate::ieee::{Double, Single};
use crate::lang::Language;
use crate::pipeline::{
    codes_of, fed_frames, forced_plan, forcing_error, frames_made, plan_of, ClonePrompt, ForcedPlan,
    FrameLoop, PlanView, PrefillPlan, FRAME_CODES,
};
use crate::postproc::{
    leading_cut, leading_trim, loud, release_cut, release_trim, speech_level, trailing_cut,
    trailing_trim, window, window_count,
};
use crate::schema::{extent_in, first_error, Tensors};
use crate::stream::{
    after_frame, onset_range, streamed_frames, DecodeRequest, FinalAction, FrameAction, StreamState,
    TAIL_HOLD_FRAMES,
};
use crate::talker::{
    talker_1_7b, talker_1_7b_cfg, talker_error, Talker, TalkerConfig, CODEC_EMBEDDING,
    TEXT_EMBEDDING,
};
use crate::text::{blank, decimal, digits, is_blank, trimmed};
use crate::tokenizer::{text_ids, tokenizer_error, TextTokenizer, TokenizerView};
use crate::weights::WeightFile;
use vstd::prelude::*;

verus! {

/// Codes per group in the 12 Hz codec; a frame holds one code per group.
pub const CODEC_GROUP_SIZE: u32 = 2048;

/// The low-pass of the app's post-processing, 10500 Hz, in double precision.
pub const CLONE_LPF_HZ: u64 = 0x40c4_8200_0000_0000;

/// The order of that low-pass.
pub const CLONE_LPF_ORDER: usize = 6;

/// The ceiling of the app's de-esser, 12 dB, in single precision.
pub const DEESS_MAX_DB: u32 = 0x4140_0000;

/// Half the sample rate, 12000 Hz, in double precision.
pub const NYQUIST_HZ: u64 = 0x40c7_7000_0000_0000;

/// Frames a reference clip may contribute to the in-context prefill. The
/// talker's rotary table has 2048 positions and the prefill also carries the
/// role header, the text and the codec prefix.
pub const MAX_REFERENCE_FRAMES: usize = 2000;

/// Values of a speaker embedding.
pub const SPEAKER_VALUES: usize = 2048;

/// The rate of everything the engine hands out.
pub const RATE: u32 = 24_000;

/// Everything applied around the model: to the text before it, to the
/// generation loop, and to the decoder's output.
///
/// None of it is part of Qwen3-TTS. It exists because half-precision weights
/// make the end-of-speech token land early, and because the relay app wants a
/// particular sound. `PostProcess::none()` is the model as published;
/// `PostProcess::app_default()` is the relay app's set.
#[derive(Clone, Copy, Debug)]
pub struct PostProcess {
    /// Replace sentence-final punctuation with a comma before tokenising, see
    /// [`damp_ending`]. Keeps the last syllable from being cut, at the price of
    /// the intonation the punctuation would have asked for.
    pub damp_ending: bool,
    /// Mask end-of-speech until every text token has been fed plus a short
    /// grace, then let a few frames release.
    pub hold_eos: bool,
    /// Bias attention toward the in-context reference span while generating.
    /// Off reproduces the official attention.
    pub attn_boost: bool,
    /// Cut silence before the first speech. Only meaningful with a reference,
    /// where the model tends to open with a pause.
    pub leading_trim: bool,
    /// Cut trailing silence.
    pub trailing_trim: bool,
    /// Low-pass in Hz. `None` leaves the full band.
    pub lowpass_hz: Option<Double>,
    /// De-esser ceiling in dB. `None` disables it.
    pub deess_max_db: Option<Single>,
}

/// Nothing applied.
pub open spec fn no_post() -> PostProcess {
    PostProcess {
        damp_ending: false,
        hold_eos: false,
        attn_boost: false,
        leading_trim: false,
        trailing_trim: false,
        lowpass_hz: None,
        deess_max_db: None,
    }
}

impl PostProcess {
    /// The model as published: text, generation and audio untouched.
    pub fn none() -> (r: Self)
        ensures
            r == no_post(),
    {
        PostProcess {
            damp_ending: false,
            hold_eos: false,
            attn_boost: false,
            leading_trim: false,
            trailing_trim: false,
            lowpass_hz: None,
            deess_max_db: None,
        }
    }

    /// What the relay app uses: comma ending, held EOS, attention boost, trims,
    /// a 10.5 kHz low-pass and a 12 dB de-esser.
    pub fn app_default() -> (r: Self)
        ensures
            r == (PostProcess {
                damp_ending: true,
                hold_eos: true,
                attn_boost: true,
                leading_trim: true,
                trailing_trim: true,
                lowpass_hz: Some(Double { bits: CLONE_LPF_HZ }),
                deess_max_db: Some(Single { bits: DEESS_MAX_DB }),
            }),
    {
        PostProcess {
            damp_ending: true,
            hold_eos: true,
            attn_boost: true,
            leading_trim: true,
            trailing_trim: true,
            lowpass_hz: Some(Double { bits: CLONE_LPF_HZ }),
            deess_max_db: Some(Single { bits: DEESS_MAX_DB }),
        }
    }
}

impl Default for PostProcess {
    /// Nothing applied.
    fn default() -> (r: Self)
        ensures
            r == no_post(),
    {
        PostProcess::none()
    }
}

/// A low-pass between 0 and half the sample rate, both left out.
pub open spec fn passable(hz: Double) -> bool {
    Double { bits: 0 }.less(hz) && hz.less(Double { bits: NYQUIST_HZ })
}

/// Why a post-processing cannot be applied, if it cannot. `hz_text` is the
/// low-pass as a message shows it.
pub open spec fn post_error(post: PostProcess, hz_text: Seq<char>) -> Option<ErrorView> {
    if post.lowpass_hz matches Some(hz) && !passable(hz) {
        Some(
            ErrorView::InvalidConfig(
                "lowpass_hz "@ + hz_text + " must lie in (0, 12000) at 24 kHz"@,
            ),
        )
    } else {
        None
    }
}

/// Refuses a low-pass outside the band. `hz_text` is the low-pass as the
/// message shows it.
pub fn validate_post(post: &PostProcess, hz_text: &str) -> (r: Result<(), TtsError>)
    ensures
        match r {
            Ok(_) => post_error(*post, hz_text@) is None,
            Err(e) => post_error(*post, hz_text@) == Some(e@),
        },
{
    match post.lowpass_hz {
        Some(hz) => {
            let zero: Double = Double { bits: 0 };
            let top: Double = Double { bits: NYQUIST_HZ };
            if zero.lt(hz) && hz.lt(top) {
                Ok(())
            } else {
                Err(
                    TtsError::InvalidConfig(
                        "lowpass_hz ".to_string().concat(hz_text).concat(
                            " must lie in (0, 12000) at 24 kHz",
                        ),
                    ),
                )
            }
        },
        None => Ok(()),
    }
}

/// A mark that ends a sentence, or a space: `.`, `?`, `!`, their full-width
/// forms and the ellipsis.
pub open spec fn terminal(c: char) -> bool {
    ||| c == '.'
    ||| c == '?'
    ||| c == '!'
    ||| c == '\u{3002}'
    ||| c == '\u{ff1f}'
    ||| c == '\u{ff01}'
    ||| c == '\u{2026}'
    ||| c == ' '
}

/// `s` without the terminal marks it ends with.
pub open spec fn unterminated(s: Seq<char>) -> Seq<char>
    decreases s.len(),
{
    if s.len() > 0 && terminal(s.last()) {
        unterminated(s.drop_last())
    } else {
        s
    }
}

/// A text with a comma for its ending; a text of nothing but marks and white
/// space is left alone.
pub open spec fn damped(s: Seq<char>) -> Seq<char> {
    let body = unterminated(trimmed(s));
    if body.len() == 0 {
        s
    } else {
        body + ","@
    }
}

fn is_terminal(c: char) -> (r: bool)
    ensures
        r == terminal(c),
{
    c == '.' || c == '?' || c == '!' || c == '\u{3002}' || c == '\u{ff1f}' || c == '\u{ff01}' || c
        == '\u{2026}' || c == ' '
}

/// Swap sentence-final punctuation for a comma.
///
/// A full stop or question mark is the model's cue to stop, and with
/// half-precision weights it tends to stop during the last phoneme rather than
/// after it. A comma reads as "more follows", so the syllable is articulated in
/// full and the model then goes quiet; the trailing trim removes that silence.
/// The trade is the intonation that the punctuation asked for.
pub fn damp_ending(text: &str) -> (r: String)
    ensures
        r@ == damped(text@),
{
    let body: &str = text.trim();
    let mut n: usize = body.unicode_len();
    assert(body@.take(n as int) =~= body@);
    while n > 0 && is_terminal(body.get_char(n - 1))
        invariant
            n <= body@.len(),
            unterminated(body@) == unterminated(body@.take(n as int)),
        decreases n,
    {
        assert(body@.take(n as int).drop_last() =~= body@.take(n - 1));
        n = n - 1;
    }
    assert(unterminated(body@) == body@.take(n as int)) by {
        assert(n > 0 ==> body@.take(n as int).last() == body@[n - 1]);
    }
    if n == 0 {
        return text.to_string();
    }
    let kept: &str = body.substring_char(0, n);
    assert(kept@ =~= body@.take(n as int));
    kept.to_string().concat(",")
}

/// A text once its ending was damped ends in one comma, or was left alone; a
/// blank text stays blank.
pub proof fn damping_only_touches_the_ending(s: Seq<char>)
    ensures
        damped(s) == s || (damped(s).len() > 1 && damped(s).last() == ',' && !terminal(
            damped(s)[damped(s).len() - 2],
        ) && damped(s).drop_last().is_prefix_of(trimmed(s))),
        blank(s) ==> damped(s) == s,
{
    reveal_strlit(",");
    lemma_unterminated(trimmed(s));
    let body = unterminated(trimmed(s));
    if body.len() > 0 {
        assert(damped(s).drop_last() =~= body);
        assert(damped(s)[damped(s).len() - 2] == body.last());
    }
}

proof fn lemma_unterminated(s: Seq<char>)
    ensures
        unterminated(s).is_prefix_of(s),
        unterminated(s).len() > 0 ==> !terminal(unterminated(s).last()),
    decreases s.len(),
{
    if s.len() > 0 && terminal(s.last()) {
        lemma_unterminated(s.drop_last());
        assert(unterminated(s) =~= s.subrange(0, unterminated(s).len() as int));
    } else {
        assert(s =~= s.subrange(0, s.len() as int));
    }
}

/// The files a model directory must hold, in the order they are looked for.
pub open spec fn model_file_list() -> Seq<&'static str> {
    seq![
        "model.safetensors",
        "vocab.json",
        "merges.txt",
        "speech_tokenizer/model.safetensors",
    ]
}

/// The files a model directory must hold, in the order they are looked for.
pub fn model_files() -> (r: Vec<&'static str>)
    ensures
        r@ == model_file_list(),
{
    vec![
        "model.safetensors",
        "vocab.json",
        "merges.txt",
        "speech_tokenizer/model.safetensors",
    ]
}

/// The first file from `from` on that is not there.
pub open spec fn first_missing(present: Seq<bool>, from: int) -> Option<int>
    decreases present.len() - from,
{
    if from >= present.len() {
        None
    } else if !present[from] {
        Some(from)
    } else {
        first_missing(present, from + 1)
    }
}

/// Refuses a model directory that lacks a file, before anything is read or
/// uploaded. `paths` are the places of [`model_files`], `present` says which of
/// them hold a file.
pub fn check_model_dir(paths: &Vec<String>, present: &Vec<bool>) -> (r: Result<(), TtsError>)
    requires
        paths.len() == present.len(),
    ensures
        match (r, first_missing(present@, 0)) {
            (Ok(_), None) => true,
            (Err(e), Some(i)) => 0 <= i < paths.len() && e@ == (ErrorView::ModelFileMissing {
                path: paths[i]@,
            }),
            _ => false,
        },
{
    let mut i: usize = 0;
    while i < present.len()
        invariant
            i <= present.len() == paths.len(),
            first_missing(present@, 0) == first_missing(present@, i as int),
        decreases present.len() - i,
    {
        if !present[i] {
            return Err(TtsError::ModelFileMissing { path: paths[i].clone() });
        }
        i = i + 1;
    }
    Ok(())
}

/// A frame that the talker cannot take, as it is told.
pub open spec fn strange_frame(what: Seq<char>, i: int, frame: Seq<u32>, groups: int) -> Option<
    ErrorView,
> {
    if frame.len() != groups {
        Some(
            ErrorView::InvalidFrames(
                what + " "@ + digits(i as nat) + " has "@ + digits(frame.len())
                    + " codes, the codec takes "@ + digits(groups as nat),
            ),
        )
    } else {
        match crate::weights::first_stray(frame, CODEC_GROUP_SIZE as int, 0) {
            Some(k) => Some(
                ErrorView::InvalidFrames(
                    what + " "@ + digits(i as nat) + " holds code "@ + digits(frame[k] as nat)
                        + ", outside the codec's 0..2048 range"@,
                ),
            ),
            None => None,
        }
    }
}

/// What is said of the first frame from `from` on that the talker cannot take.
pub open spec fn strange_frames(
    what: Seq<char>,
    frames: Seq<Seq<u32>>,
    groups: int,
    from: int,
) -> Option<ErrorView>
    decreases frames.len() - from,
{
    if from >= frames.len() {
        None
    } else {
        match strange_frame(what, from, frames[from], groups) {
            Some(e) => Some(e),
            None => strange_frames(what, frames, groups, from + 1),
        }
    }
}

fn find_stray(ids: &Vec<u32>, limit: u32) -> (r: Option<usize>)
    ensures
        match r {
            Some(k) => crate::weights::first_stray(ids@, limit as int, 0) == Some(k as int) && k
                < ids.len(),
            None => crate::weights::first_stray(ids@, limit as int, 0) is None,
        },
{
    let mut k: usize = 0;
    while k < ids.len()
        invariant
            k <= ids.len(),
            crate::weights::first_stray(ids@, limit as int, 0) == crate::weights::first_stray(
                ids@,
                limit as int,
                k as int,
            ),
        decreases ids.len() - k,
    {
        if ids[k] >= limit {
            return Some(k);
        }
        k = k + 1;
    }
    None
}

fn check_frame(what: &str, i: usize, frame: &Vec<u32>, groups: usize) -> (r: Result<(), TtsError>)
    ensures
        match r {
            Ok(_) => strange_frame(what@, i as int, frame@, groups as int) is None,
            Err(e) => strange_frame(what@, i as int, frame@, groups as int) == Some(e@),
        },
{
    let head: String = what.to_string().concat(" ").concat(decimal(i as u64).as_str());
    if frame.len() != groups {
        return Err(
            TtsError::InvalidFrames(
                head.concat(" has ").concat(decimal(frame.len() as u64).as_str()).concat(
                    " codes, the codec takes ",
                ).concat(decimal(groups as u64).as_str()),
            ),
        );
    }
    match find_stray(frame, CODEC_GROUP_SIZE) {
        Some(k) => Err(
            TtsError::InvalidFrames(
                head.concat(" holds code ").concat(decimal(frame[k] as u64).as_str()).concat(
                    ", outside the codec's 0..2048 range",
                ),
            ),
        ),
        None => Ok(()),
    }
}

/// Refuses frames that the talker and code predictor cannot consume: `groups`
/// codes each, every code inside the codec's 2048-entry group. `what` says in
/// the error what the frames are.
pub fn validate_frames(frames: &Vec<Vec<u32>>, what: &str, groups: usize) -> (r: Result<
    (),
    TtsError,
>)
    ensures
        match r {
            Ok(_) => strange_frames(what@, codes_of(frames@), groups as int, 0) is None,
            Err(e) => strange_frames(what@, codes_of(frames@), groups as int, 0) == Some(e@),
        },
{
    let mut i: usize = 0;
    while i < frames.len()
        invariant
            i <= frames.len(),
            strange_frames(what@, codes_of(frames@), groups as int, 0) == strange_frames(
                what@,
                codes_of(frames@),
                groups as int,
                i as int,
            ),
        decreases frames.len() - i,
    {
        check_frame(what, i, &frames[i], groups)?;
        i = i + 1;
    }
    Ok(())
}

proof fn lemma_frames_whole(what: Seq<char>, frames: Seq<Seq<u32>>, groups: int, from: int)
    requires
        0 <= from,
        strange_frames(what, frames, groups, from) is None,
    ensures
        forall|i: int| from <= i < frames.len() ==> (#[trigger] frames[i]).len() == groups,
    decreases frames.len() - from,
{
    if from < frames.len() {
        lemma_frames_whole(what, frames, groups, from + 1);
    }
}

/// What a request is held against: the tokenizer, the talker, the code
/// predictor, and the entries of each of the decoder's codebooks.
pub struct EngineView {
    pub tokenizer: TokenizerView,
    pub talker: Talker,
    pub cp: CodePredictor,
    pub codebooks: Seq<int>,
}

impl EngineView {
    /// Every text id must be below this.
    pub open spec fn text_rows(self) -> int {
        (self.talker.text_rows as u32) as int
    }
}

/// Why a prompt cannot be used, if it cannot.
pub open spec fn prompt_error(e: EngineView, prompt: ClonePrompt) -> Option<ErrorView> {
    if prompt.speaker_embedding.len() != SPEAKER_VALUES {
        Some(
            ErrorView::InvalidPrompt(
                "speaker embedding has "@ + digits(prompt.speaker_embedding.len() as nat)
                    + " values, the talker takes 2048"@,
            ),
        )
    } else {
        match strange_frames("reference frame"@, codes_of(prompt.ref_codes@), e.codebooks.len() as int, 0) {
            Some(why) => Some(ErrorView::InvalidPrompt(message_of(why))),
            None => if prompt.ref_codes.len() > MAX_REFERENCE_FRAMES {
                Some(
                    ErrorView::ReferenceTooLong {
                        frames: prompt.ref_codes.len(),
                        max: MAX_REFERENCE_FRAMES,
                    },
                )
            } else if crate::weights::first_stray(
                prompt.ref_text_ids@,
                e.text_rows(),
                0,
            ) is Some {
                Some(ErrorView::InvalidPrompt("reference text id outside the vocabulary"@))
            } else {
                None
            },
        }
    }
}

/// Why text ids cannot be spoken, if they cannot.
pub open spec fn text_ids_error(e: EngineView, ids: Seq<u32>) -> Option<ErrorView> {
    if ids.len() == 0 {
        Some(ErrorView::EmptyText)
    } else if crate::weights::first_stray(ids, e.text_rows(), 0) is Some {
        Some(ErrorView::InvalidPrompt("text id outside the vocabulary"@))
    } else {
        None
    }
}

/// Why text ids cannot be spoken with a prompt, if they cannot.
pub open spec fn admit_error(e: EngineView, ids: Seq<u32>, prompt: ClonePrompt) -> Option<
    ErrorView,
> {
    match text_ids_error(e, ids) {
        Some(why) => Some(why),
        None => prompt_error(e, prompt),
    }
}

/// The prefill of admitted text ids.
pub open spec fn admitted_plan(
    ids: Seq<u32>,
    prompt: ClonePrompt,
    max_frames: int,
    attn_boost: bool,
) -> PlanView {
    plan_of(
        prompt.language,
        codes_of(prompt.ref_codes@),
        prompt.ref_text_ids@,
        ids,
        max_frames,
        attn_boost,
    )
}

/// The text that is tokenised.
pub open spec fn spoken(text: Seq<char>, post: PostProcess) -> Seq<char> {
    if post.damp_ending {
        damped(text)
    } else {
        text
    }
}

/// A request that was admitted: the text as it is spoken, its ids, the prefill
/// and the generation loop at its start.
#[derive(Debug)]
pub struct Request {
    pub text: String,
    pub ids: Vec<u32>,
    pub plan: PrefillPlan,
    pub start: FrameLoop,
}

/// Why a text cannot be spoken with a prompt, if it cannot.
pub open spec fn request_error(e: EngineView, text: Seq<char>, prompt: ClonePrompt) -> Option<
    ErrorView,
> {
    match text_ids(e.tokenizer, text) {
        Err(detail) => Some(tokenizer_error("encode"@, detail)),
        Ok(ids) => admit_error(e, ids, prompt),
    }
}

/// An admitted request to speak `text`.
pub open spec fn planned(
    q: Request,
    e: EngineView,
    text: Seq<char>,
    prompt: ClonePrompt,
    max_frames: int,
    post: PostProcess,
) -> bool {
    let plan = admitted_plan(q.ids@, prompt, max_frames, post.attn_boost);
    &&& text_ids(e.tokenizer, text) == Ok::<Seq<u32>, Seq<char>>(q.ids@)
    &&& q.text@ == text
    &&& q.plan@ == plan
    &&& q.start == FrameLoop::start_of(plan, post.hold_eos)
}

/// Why a text cannot be spoken by the app, if it cannot: the text and the
/// prompt come first, then the post-processing.
pub open spec fn speak_error(
    e: EngineView,
    text: Seq<char>,
    prompt: ClonePrompt,
    post: PostProcess,
    hz_text: Seq<char>,
) -> Option<ErrorView> {
    match request_error(e, text, prompt) {
        Some(why) => Some(why),
        None => post_error(post, hz_text),
    }
}

/// Why the logits along given frames cannot be computed, if they cannot.
pub open spec fn forced_error(
    e: EngineView,
    text: Seq<char>,
    prompt: ClonePrompt,
    frames: Seq<Seq<u32>>,
) -> Option<ErrorView> {
    if blank(text) {
        Some(ErrorView::EmptyText)
    } else {
        match text_ids(e.tokenizer, text) {
            Err(detail) => Some(tokenizer_error("encode"@, detail)),
            Ok(ids) => match admit_error(e, ids, prompt) {
                Some(why) => Some(why),
                None => match strange_frames("frame"@, frames, FRAME_CODES as int, 0) {
                    Some(why) => Some(why),
                    None => forcing_error(frames, prompt.ref_codes.len() as int),
                },
            },
        }
    }
}

/// Why two files cannot serve as the model, if they cannot.
pub open spec fn model_error(main: Tensors, codec: Tensors) -> Option<ErrorView> {
    match talker_error(main, talker_1_7b_cfg()) {
        Some(e) => Some(e),
        None => match predictor_error(main, code_pred_1_7b_cfg()) {
            Some(e) => Some(e),
            None => first_error(codec, decoder_steps()),
        },
    }
}

/// The engine's checks: a tokenizer and a model whose weights were checked.
pub struct Engine {
    tokenizer: TextTokenizer,
    talker: Talker,
    cp: CodePredictor,
    decoder: Decoder12Hz,
}

impl View for Engine {
    type V = EngineView;

    closed spec fn view(&self) -> EngineView {
        EngineView {
            tokenizer: self.tokenizer@,
            talker: self.talker,
            cp: self.cp,
            codebooks: self.decoder@,
        }
    }
}

/// The plan of a decode of `n` generated frames behind `ref_frames` of a
/// reference, whose samples are not kept; none where nothing was generated.
pub open spec fn plan_after(ref_frames: int, n: int) -> Option<DecodePlan> {
    if n == 0 {
        None
    } else if ref_frames == 0 {
        Some(whole_plan(n))
    } else {
        Some(tail_plan(ref_frames + n, ref_frames))
    }
}

impl Engine {
    /// The decoder takes frames of sixteen codes.
    pub open spec fn wf(&self) -> bool {
        self@.codebooks.len() == FRAME_CODES
    }

    /// An engine of the 1.7B model, from the model's weights and the speech
    /// tokenizer's: the talker is checked first, then the code predictor, then
    /// the decoder.
    pub fn load(tokenizer: TextTokenizer, main: &WeightFile<'_>, codec: &WeightFile<'_>) -> (r:
        Result<Engine, TtsError>)
        ensures
            match r {
                Ok(e) => {
                    &&& e.wf()
                    &&& model_error(main@, codec@) is None
                    &&& e@.tokenizer == tokenizer@
                    &&& e@.talker.cfg == talker_1_7b_cfg()
                    &&& e@.talker.text_rows == extent_in(main@, TEXT_EMBEDDING@, 0)
                    &&& e@.talker.codec_rows == extent_in(main@, CODEC_EMBEDDING@, 0)
                    &&& e@.cp.cfg == code_pred_1_7b_cfg()
                    &&& e@.codebooks == codebook_sizes(codec@)
                },
                Err(e) => model_error(main@, codec@) == Some(e@),
            },
    {
        let sizes: TalkerConfig = talker_1_7b();
        assert(sizes.heads * sizes.head_dim == 2048 && sizes.kv_heads * sizes.head_dim == 1024)
            by (nonlinear_arith)
            requires
                sizes.heads == 16,
                sizes.kv_heads == 8,
                sizes.head_dim == 128,
        ;
        let talker: Talker = Talker::load(main, sizes)?;
        let sizes: CodePredictorConfig = code_pred_1_7b();
        assert(sizes.heads * sizes.head_dim == 2048 && sizes.kv_heads * sizes.head_dim == 1024)
            by (nonlinear_arith)
            requires
                sizes.heads == 16,
                sizes.kv_heads == 8,
                sizes.head_dim == 128,
        ;
        let cp: CodePredictor = CodePredictor::load(main, sizes)?;
        let decoder: Decoder12Hz = Decoder12Hz::load(codec)?;
        Ok(Engine { tokenizer, talker, cp, decoder })
    }

    /// An engine of parts that were loaded one by one.
    pub fn from_parts(
        tokenizer: TextTokenizer,
        talker: Talker,
        cp: CodePredictor,
        decoder: Decoder12Hz,
    ) -> (r: Engine)
        ensures
            r@ == (EngineView { tokenizer: tokenizer@, talker, cp, codebooks: decoder@ }),
    {
        Engine { tokenizer, talker, cp, decoder }
    }

    /// The talker.
    pub fn talker(&self) -> (r: &Talker)
        ensures
            *r == self@.talker,
    {
        &self.talker
    }

    /// The code predictor.
    pub fn code_predictor(&self) -> (r: &CodePredictor)
        ensures
            *r == self@.cp,
    {
        &self.cp
    }

    /// The decoder.
    pub fn decoder(&self) -> (r: &Decoder12Hz)
        ensures
            r@ == self@.codebooks,
    {
        &self.decoder
    }

    /// Tokenize text to input ids.
    pub fn encode(&self, text: &str) -> (r: Result<Vec<u32>, TtsError>)
        ensures
            match text_ids(self@.tokenizer, text@) {
                Ok(ids) => r matches Ok(v) && v@ == ids,
                Err(detail) => r matches Err(e) && e@ == tokenizer_error("encode"@, detail),
            },
    {
        self.tokenizer.encode(text)
    }

    /// Refuses a prompt that the model cannot be conditioned on.
    pub fn validate_prompt(&self, prompt: &ClonePrompt) -> (r: Result<(), TtsError>)
        ensures
            match r {
                Ok(_) => prompt_error(self@, *prompt) is None,
                Err(e) => prompt_error(self@, *prompt) == Some(e@),
            },
    {
        if prompt.speaker_embedding.len() != SPEAKER_VALUES {
            return Err(
                TtsError::InvalidPrompt(
                    "speaker embedding has ".to_string().concat(
                        decimal(prompt.speaker_embedding.len() as u64).as_str(),
                    ).concat(" values, the talker takes 2048"),
                ),
            );
        }
        match validate_frames(&prompt.ref_codes, "reference frame", self.decoder.groups()) {
            Ok(_) => {},
            Err(e) => {
                return Err(TtsError::InvalidPrompt(e.message()));
            },
        }
        if prompt.ref_codes.len() > MAX_REFERENCE_FRAMES {
            return Err(
                TtsError::ReferenceTooLong {
                    frames: prompt.ref_codes.len(),
                    max: MAX_REFERENCE_FRAMES,
                },
            );
        }
        if find_stray(&prompt.ref_text_ids, self.talker.text_rows as u32).is_some() {
            return Err(
                TtsError::InvalidPrompt("reference text id outside the vocabulary".to_string()),
            );
        }
        Ok(())
    }

    /// Refuses text ids that cannot be spoken.
    pub fn validate_text_ids(&self, ids: &Vec<u32>) -> (r: Result<(), TtsError>)
        ensures
            match r {
                Ok(_) => text_ids_error(self@, ids@) is None,
                Err(e) => text_ids_error(self@, ids@) == Some(e@),
            },
    {
        if ids.len() == 0 {
            return Err(TtsError::EmptyText);
        }
        if find_stray(ids, self.talker.text_rows as u32).is_some() {
            return Err(TtsError::InvalidPrompt("text id outside the vocabulary".to_string()));
        }
        Ok(())
    }

    /// Admits text ids with a prompt and plans their prefill.
    pub fn generate_frames(
        &self,
        ids: &Vec<u32>,
        prompt: &ClonePrompt,
        max_frames: usize,
        attn_boost: bool,
    ) -> (r: Result<PrefillPlan, TtsError>)
        requires
            self.wf(),
        ensures
            match r {
                Ok(p) => admit_error(self@, ids@, *prompt) is None && p@ == admitted_plan(
                    ids@,
                    *prompt,
                    max_frames as int,
                    attn_boost,
                ),
                Err(e) => admit_error(self@, ids@, *prompt) == Some(e@),
            },
    {
        self.validate_text_ids(ids)?;
        self.validate_prompt(prompt)?;
        proof {
            lemma_frames_whole(
                "reference frame"@,
                codes_of(prompt.ref_codes@),
                FRAME_CODES as int,
                0,
            );
            assert forall|i: int| 0 <= i < prompt.ref_codes.len() implies (
            #[trigger] prompt.ref_codes[i]).len() == FRAME_CODES by {
                assert(codes_of(prompt.ref_codes@)[i].len() == FRAME_CODES);
            }
        }
        PrefillPlan::new(ids.as_slice(), prompt, max_frames, attn_boost)
    }

    fn request(
        &self,
        text: String,
        prompt: &ClonePrompt,
        max_frames: usize,
        post: &PostProcess,
    ) -> (r: Result<Request, TtsError>)
        requires
            self.wf(),
        ensures
            match r {
                Ok(q) => request_error(self@, text@, *prompt) is None && planned(
                    q,
                    self@,
                    text@,
                    *prompt,
                    max_frames as int,
                    *post,
                ),
                Err(e) => request_error(self@, text@, *prompt) == Some(e@),
            },
    {
        let ids: Vec<u32> = self.tokenizer.encode(text.as_str())?;
        let plan: PrefillPlan = self.generate_frames(&ids, prompt, max_frames, post.attn_boost)?;
        let start: FrameLoop = FrameLoop::start(&plan, post.hold_eos);
        Ok(Request { text, ids, plan, start })
    }

    /// Admits a text to be synthesised in one piece. Blank text is refused
    /// before anything else; only the switches of `post` that matter while
    /// frames are made apply.
    pub fn synthesize_frames(
        &self,
        text: &str,
        prompt: &ClonePrompt,
        max_frames: usize,
        post: &PostProcess,
    ) -> (r: Result<Request, TtsError>)
        requires
            self.wf(),
        ensures
            match r {
                Ok(q) => {
                    &&& !blank(text@)
                    &&& request_error(self@, spoken(text@, *post), *prompt) is None
                    &&& planned(
                        q,
                        self@,
                        spoken(text@, *post),
                        *prompt,
                        max_frames as int,
                        *post,
                    )
                },
                Err(e) => if blank(text@) {
                    e@ == ErrorView::EmptyText
                } else {
                    request_error(self@, spoken(text@, *post), *prompt) == Some(e@)
                },
            },
    {
        if is_blank(text) {
            return Err(TtsError::EmptyText);
        }
        let said: String = if post.damp_ending {
            damp_ending(text)
        } else {
            text.to_string()
        };
        self.request(said, prompt, max_frames, post)
    }

    /// Admits a text to be spoken by the app, in one piece or as a stream: the
    /// text, the prompt and then the post-processing.
    pub fn synthesize_speak(
        &self,
        text: &str,
        prompt: &ClonePrompt,
        max_frames: usize,
        post: &PostProcess,
        hz_text: &str,
    ) -> (r: Result<Request, TtsError>)
        requires
            self.wf(),
        ensures
            match r {
                Ok(q) => {
                    let said = spoken(text@, *post);
                    &&& speak_error(self@, said, *prompt, *post, hz_text@) is None
                    &&& planned(q, self@, said, *prompt, max_frames as int, *post)
                },
                Err(e) => speak_error(self@, spoken(text@, *post), *prompt, *post, hz_text@)
                    == Some(e@),
            },
    {
        let said: String = if post.damp_ending {
            damp_ending(text)
        } else {
            text.to_string()
        };
        let q: Request = self.request(said, prompt, max_frames, post)?;
        validate_post(post, hz_text)?;
        Ok(q)
    }

    /// Admits a text to be streamed: as [`Self::synthesize_speak`], with the
    /// stream at its start.
    pub fn synthesize_streaming(
        &self,
        text: &str,
        prompt: &ClonePrompt,
        max_frames: usize,
        full_lead: bool,
        post: &PostProcess,
        hz_text: &str,
    ) -> (r: Result<(Request, StreamState), TtsError>)
        requires
            self.wf(),
        ensures
            match r {
                Ok((q, st)) => {
                    let said = spoken(text@, *post);
                    &&& speak_error(self@, said, *prompt, *post, hz_text@) is None
                    &&& planned(q, self@, said, *prompt, max_frames as int, *post)
                    &&& st == (StreamState {
                        full_lead,
                        hold_eos: post.hold_eos,
                        ref_len: prompt.ref_codes.len(),
                        text_frames: q.ids.len(),
                        emitted_frame: 0,
                        onset_done: false,
                        silent_run: 0,
                    })
                },
                Err(e) => speak_error(self@, spoken(text@, *post), *prompt, *post, hz_text@)
                    == Some(e@),
            },
    {
        let q: Request = self.synthesize_speak(text, prompt, max_frames, post, hz_text)?;
        let st: StreamState = StreamState::start(
            full_lead,
            post.hold_eos,
            prompt.ref_codes.len(),
            q.ids.len(),
        );
        Ok((q, st))
    }

    /// Admits a text whose logits are wanted along given frames. The text is
    /// fed as given; as many frames are fed as the largest cache can hold.
    pub fn forced_logits(&self, text: &str, prompt: &ClonePrompt, frames: &Vec<Vec<u32>>) -> (r:
        Result<(Vec<u32>, ForcedPlan), TtsError>)
        requires
            self.wf(),
        ensures
            match r {
                Ok((ids, p)) => {
                    &&& forced_error(self@, text@, *prompt, codes_of(frames@)) is None
                    &&& text_ids(self@.tokenizer, text@) == Ok::<Seq<u32>, Seq<char>>(ids@)
                    &&& p.feeds(
                        forced_plan(
                            prompt.language,
                            codes_of(prompt.ref_codes@),
                            prompt.ref_text_ids@,
                            ids@,
                            frames.len() as int,
                        ),
                        fed_frames(frames.len() as int, prompt.ref_codes.len() as int),
                    )
                },
                Err(e) => forced_error(self@, text@, *prompt, codes_of(frames@)) == Some(e@),
            },
    {
        if is_blank(text) {
            return Err(TtsError::EmptyText);
        }
        let ids: Vec<u32> = self.tokenizer.encode(text)?;
        self.validate_text_ids(&ids)?;
        self.validate_prompt(prompt)?;
        validate_frames(frames, "frame", self.decoder.groups())?;
        proof {
            lemma_frames_whole(
                "reference frame"@,
                codes_of(prompt.ref_codes@),
                FRAME_CODES as int,
                0,
            );
            assert forall|i: int| 0 <= i < prompt.ref_codes.len() implies (
            #[trigger] prompt.ref_codes[i]).len() == FRAME_CODES by {
                assert(codes_of(prompt.ref_codes@)[i].len() == FRAME_CODES);
            }
        }
        let plan: ForcedPlan = crate::pipeline::forced_logits(ids.as_slice(), prompt, frames)?;
        Ok((ids, plan))
    }

    /// Refuses a blank reference text.
    pub fn check_reference_text(ref_text: &str) -> (r: Result<(), TtsError>)
        ensures
            match r {
                Ok(_) => !blank(ref_text@),
                Err(e) => blank(ref_text@) && e@ == ErrorView::EmptyReferenceText,
            },
    {
        if is_blank(ref_text) {
            return Err(TtsError::EmptyReferenceText);
        }
        Ok(())
    }

    /// The prompt of a reference: its speaker embedding, its codes and the ids
    /// of its text. A blank text is refused before anything else, too many codes
    /// before the text is tokenised. The codes are those of a clip: at least one
    /// frame, and sixteen codes in each.
    pub fn build_clone_prompt(
        &self,
        speaker_embedding: Vec<Single>,
        ref_codes: Vec<Vec<u32>>,
        ref_text: &str,
        language: Language,
    ) -> (r: Result<ClonePrompt, TtsError>)
        requires
            !blank(ref_text@) ==> ref_codes.len() > 0 && forall|i: int|
                0 <= i < ref_codes.len() ==> (#[trigger] ref_codes[i]).len() == FRAME_CODES,
        ensures
            blank(ref_text@) <==> (r matches Err(e) && e@ == ErrorView::EmptyReferenceText),
            match r {
                Ok(p) => {
                    &&& !blank(ref_text@)
                    &&& 1 <= p.ref_codes.len() <= MAX_REFERENCE_FRAMES
                    &&& forall|i: int|
                        0 <= i < p.ref_codes.len() ==> (#[trigger] p.ref_codes[i]).len()
                            == FRAME_CODES
                    &&& p.language == language
                    &&& p.speaker_embedding == speaker_embedding
                    &&& p.ref_codes == ref_codes
                    &&& text_ids(self@.tokenizer, ref_text@) == Ok::<Seq<u32>, Seq<char>>(
                        p.ref_text_ids@,
                    )
                },
                Err(e) => if blank(ref_text@) {
                    e@ == ErrorView::EmptyReferenceText
                } else if ref_codes.len() > MAX_REFERENCE_FRAMES {
                    e@ == (ErrorView::ReferenceTooLong {
                        frames: ref_codes.len(),
                        max: MAX_REFERENCE_FRAMES,
                    })
                } else {
                    text_ids(self@.tokenizer, ref_text@) matches Err(detail) && e@
                        == tokenizer_error("encode"@, detail)
                },
            },
    {
        Engine::check_reference_text(ref_text)?;
        if ref_codes.len() > MAX_REFERENCE_FRAMES {
            return Err(
                TtsError::ReferenceTooLong { frames: ref_codes.len(), max: MAX_REFERENCE_FRAMES },
            );
        }
        let ref_text_ids: Vec<u32> = self.tokenizer.encode(ref_text)?;
        Ok(ClonePrompt { language, speaker_embedding, ref_codes, ref_text_ids })
    }

    /// A prompt without a reference in context: timbre from the speaker
    /// embedding, the model's own prosody.
    pub fn build_xvector_prompt(speaker_embedding: Vec<Single>, language: Language) -> (r:
        ClonePrompt)
        ensures
            r.language == language,
            r.speaker_embedding == speaker_embedding,
            r.ref_codes@.len() == 0,
            r.ref_text_ids@.len() == 0,
    {
        ClonePrompt {
            language,
            speaker_embedding,
            ref_codes: Vec::new(),
            ref_text_ids: Vec::new(),
        }
    }

    /// Plans the decode of generated frames with the reference's frames in
    /// front, so that the causal decoder has real speech as context for the
    /// first of them; the reference's samples are not kept. Gives all frames to
    /// decode and the plan, or nothing where there is nothing to decode.
    pub fn decode_after_reference(&self, prompt: &ClonePrompt, frames: &Vec<Vec<u32>>) -> (r:
        Result<Option<(Vec<Vec<u32>>, DecodePlan)>, TtsError>)
        requires
            prompt.ref_codes.len() + frames.len() <= usize::MAX / 2,
        ensures
            ({
                let reference = codes_of(prompt.ref_codes@);
                let generated = codes_of(frames@);
                let all = if generated.len() == 0 {
                    generated
                } else {
                    reference + generated
                };
                match r {
                    Ok(None) => generated.len() == 0,
                    Ok(Some((v, plan))) => {
                        &&& generated.len() > 0
                        &&& frames_error_from(all, self@.codebooks, 0) is None
                        &&& codes_of(v@) == all
                        &&& plan.wf()
                        &&& Some(plan) == plan_after(
                            reference.len() as int,
                            generated.len() as int,
                        )
                    },
                    Err(e) => frames_error_from(all, self@.codebooks, 0) == Some(e@),
                }
            }),
    {
        if frames.len() == 0 {
            return Ok(None);
        }
        let all: Vec<Vec<u32>> = join_frames(&prompt.ref_codes, frames);
        let plan: Option<DecodePlan> = if prompt.ref_codes.len() == 0 {
            assert(codes_of(all@) =~= codes_of(frames@));
            self.decoder.decode(&all)?
        } else {
            self.decoder.decode_window(&all, prompt.ref_codes.len())?
        };
        proof {
            assert(codes_of(all@).len() == all@.len());
        }
        match plan {
            Some(p) => Ok(Some((all, p))),
            None => Ok(None),
        }
    }
}

/// A copy of some frames with others behind them.
pub fn join_frames(first: &Vec<Vec<u32>>, second: &Vec<Vec<u32>>) -> (r: Vec<Vec<u32>>)
    ensures
        codes_of(r@) == codes_of(first@) + codes_of(second@),
{
    let mut out: Vec<Vec<u32>> = Vec::new();
    push_frames(&mut out, first);
    push_frames(&mut out, second);
    assert(codes_of(out@) =~= codes_of(first@) + codes_of(second@));
    out
}

fn push_frames(out: &mut Vec<Vec<u32>>, frames: &Vec<Vec<u32>>)
    ensures
        codes_of(final(out)@) == codes_of(old(out)@) + codes_of(frames@),
{
    let mut i: usize = 0;
    while i < frames.len()
        invariant
            i <= frames.len(),
            codes_of(out@) =~= codes_of(old(out)@) + codes_of(frames@).take(i as int),
        decreases frames.len() - i,
    {
        let ghost before: Seq<Vec<u32>> = out@;
        let copy: Vec<u32> = vstd::slice::slice_to_vec(frames[i].as_slice());
        assert(copy@ =~= frames[i as int]@);
        out.push(copy);
        assert(codes_of(out@) =~= codes_of(before).push(frames[i as int]@));
        i = i + 1;
    }
    assert(codes_of(frames@).take(i as int) =~= codes_of(frames@));
}

/// Where the audio of an utterance starts once silence before it was cut, if
/// it is: only a reference makes the model open with a pause.
pub open spec fn audio_start(
    post: PostProcess,
    reference: bool,
    levels: Seq<Single>,
) -> int {
    if post.leading_trim && reference {
        leading_cut(loud(levels, speech_level()), window(RATE))
    } else {
        0
    }
}

/// Where the audio of an utterance or of a stream's last chunk ends once
/// silence behind it was cut, if it is.
pub open spec fn audio_end(post: PostProcess, levels: Seq<Single>, len: int) -> int {
    if post.trailing_trim {
        trailing_cut(loud(levels, speech_level()), window(RATE), len)
    } else {
        len
    }
}

/// The part of an utterance that is kept.
pub open spec fn post_range(
    post: PostProcess,
    reference: bool,
    levels: Seq<Single>,
    len: int,
) -> (int, int) {
    let start = audio_start(post, reference, levels);
    let end = audio_end(post, levels, len);
    (
        start,
        if end < start {
            start
        } else {
            end
        },
    )
}

/// The part of an utterance that is kept: silence before and behind it is cut
/// where `post` says so. `levels` holds the level of each full 20 ms window.
pub fn apply_post(post: &PostProcess, reference: bool, levels: &[Single], len: usize) -> (r: (
    usize,
    usize,
))
    requires
        levels.len() == window_count(len as nat, RATE),
    ensures
        (r.0 as int, r.1 as int) == post_range(*post, reference, levels@, len as int),
        r.0 <= r.1 <= len,
{
    let start: usize = speech_start(post, reference, levels, len);
    let end: usize = if post.trailing_trim {
        let cut: usize = trailing_trim(levels, len, RATE);
        if cut < start {
            start
        } else {
            cut
        }
    } else {
        len
    };
    (start, end)
}

/// Where the audio of an utterance starts once silence before it was cut.
pub fn speech_start(post: &PostProcess, reference: bool, levels: &[Single], len: usize) -> (r:
    usize)
    requires
        levels.len() == window_count(len as nat, RATE),
    ensures
        r == audio_start(*post, reference, levels@),
        r <= len,
{
    if post.leading_trim && reference {
        leading_trim(levels, len, RATE)
    } else {
        0
    }
}

/// Where the audio of a one-shot utterance ends: its release is cut short where
/// silence behind it is to be cut. `threshold` is that of [`release_trim`].
pub fn speak_end(post: &PostProcess, levels: &[Single], threshold: Single, len: usize) -> (r: usize)
    requires
        levels.len() == window_count(len as nat, RATE),
    ensures
        r == if post.trailing_trim {
            release_cut(loud(levels@, threshold), window(RATE), len as int)
        } else {
            len as int
        },
        r <= len,
{
    if post.trailing_trim {
        release_trim(levels, threshold, len, RATE)
    } else {
        len
    }
}

/// Where the last chunk of a stream ends.
pub fn stream_end(post: &PostProcess, levels: &[Single], len: usize) -> (r: usize)
    requires
        levels.len() == window_count(len as nat, RATE),
    ensures
        r == audio_end(*post, levels@, len as int),
        r <= len,
{
    if post.trailing_trim {
        trailing_trim(levels, len, RATE)
    } else {
        len
    }
}

/// An utterance without post-processing is handed on as the decoder gave it:
/// the text as given, no trim, the official stopping rule.
pub proof fn no_post_changes_nothing(
    text: Seq<char>,
    reference: bool,
    levels: Seq<Single>,
    hz_text: Seq<char>,
)
    ensures
        spoken(text, no_post()) == text,
        audio_start(no_post(), reference, levels) == 0,
        post_error(no_post(), hz_text) is None,
        !no_post().hold_eos && !no_post().attn_boost && !no_post().trailing_trim,
        no_post().lowpass_hz is None && no_post().deess_max_db is None,
{
}

/// Without post-processing an utterance is what the decoder gives for its frames
/// behind the reference: 1920 samples for each of them, in range, those of a
/// decode of everything from the end of the reference on, and all of them are
/// kept.
///
/// `window` holds the latents of the plan's window, `whole` those of all frames.
pub proof fn published_audio_is_the_decode(
    model: Model,
    tensors: Tensors,
    reference: Seq<Seq<u32>>,
    generated: Seq<Seq<u32>>,
    whole: Seq<Seq<Single>>,
    window: Seq<Seq<Single>>,
    levels: Seq<Single>,
)
    requires
        model.covered(tensors),
        reference.len() + generated.len() <= usize::MAX / 2,
        plan_all((reference + generated).len() as int) matches Some(p) ==> model.is_window(
            p,
            reference + generated,
            whole,
        ),
        plan_after(reference.len() as int, generated.len() as int) matches Some(p)
            ==> model.is_window(p, reference + generated, window),
    ensures
        ({
            let (r, n) = (reference.len() as int, generated.len() as int);
            let raw = kept_samples(plan_after(r, n), model.upsampled(window));
            let all = kept_samples(plan_all(r + n), model.upsampled(whole));
            &&& all.len() == (r + n) * SAMPLES_PER_FRAME
            &&& raw.len() == n * SAMPLES_PER_FRAME
            &&& raw == all.skip(r * SAMPLES_PER_FRAME)
            &&& forall|i: int| 0 <= i < raw.len() ==> in_range(#[trigger] raw[i])
            &&& post_range(no_post(), r > 0, levels, raw.len() as int) == (0int, raw.len() as int)
        }),
{
    let (r, n) = (reference.len() as int, generated.len() as int);
    let frames = reference + generated;
    assert(frames.take(r + n) =~= frames);
    assert(n > 0 && r == 0 ==> whole_plan(n) == tail_plan(n, 0));
    assert(plan_after(r, n) == plan_from(r + n, r));
    crate::decoder::windows_end_like_the_whole(model, tensors, frames, r + n, r, whole, window);
    let raw = kept_samples(plan_after(r, n), model.upsampled(window));
    let all = kept_samples(plan_all(r + n), model.upsampled(whole));
    assert(raw =~= all.skip(r * SAMPLES_PER_FRAME));
}

/// The samples of the first `generated` frames, from frame `keep_from` on, where
/// `audio` holds those of a whole utterance behind `ref_frames` of a reference.
/// That is what a stream's decode gives: see
/// [`stream_decodes_are_parts_of_the_whole`].
pub open spec fn decoded(audio: Seq<Single>, ref_frames: int, q: DecodeRequest) -> Seq<Single> {
    audio.subrange(
        (q.keep_from - ref_frames) * SAMPLES_PER_FRAME,
        q.generated * SAMPLES_PER_FRAME,
    )
}

/// The samples that a stream hands on from `st` on, where there are `n` of
/// `total` frames. `audio` holds the samples of all of them, `levels` gives the
/// levels of some samples, `lead(k)` and `silent(k)` say what the stream finds
/// once there are `k` frames. Filters and fades come behind this.
pub open spec fn stream_audio(
    post: PostProcess,
    st: StreamState,
    n: int,
    total: int,
    audio: Seq<Single>,
    levels: spec_fn(Seq<Single>) -> Seq<Single>,
    lead: spec_fn(int) -> bool,
    silent: spec_fn(int) -> usize,
) -> Seq<Single>
    decreases total - n,
{
    let reference = st.ref_len > 0;
    let ref_frames = st.ref_len as int;
    if n >= total {
        match st.last_action(total) {
            FinalAction::Nothing => Seq::empty(),
            FinalAction::Rest(q) => {
                let rest = decoded(audio, ref_frames, q);
                rest.take(audio_end(post, levels(rest), rest.len() as int))
            },
            FinalAction::Whole(q) => {
                let full = decoded(audio, ref_frames, q);
                let rest = full.skip(audio_start(post, reference, levels(full)));
                rest.take(audio_end(post, levels(rest), rest.len() as int))
            },
        }
    } else {
        let k = n + 1;
        let (next, _) = after_frame(st, k, lead(k), silent(k));
        let chunk = match st.action(k) {
            FrameAction::Wait => Seq::empty(),
            FrameAction::Onset(q) => {
                let full = decoded(audio, ref_frames, q);
                let onset = audio_start(post, reference, levels(full));
                match onset_range(k, full.len() as int, onset) {
                    Some((a, b)) => if lead(k) {
                        full.subrange(a, b)
                    } else {
                        Seq::empty()
                    },
                    None => Seq::empty(),
                }
            },
            FrameAction::Tail(q) => decoded(audio, ref_frames, q),
        };
        chunk + stream_audio(post, next, k, total, audio, levels, lead, silent)
    }
}

/// Without post-processing a stream hands on every sample of the utterance once
/// and in order, whatever its lead and its silence: from `st` on, those of the
/// frames that were not handed on yet.
pub proof fn streams_hand_on_every_sample(
    st: StreamState,
    n: int,
    total: int,
    audio: Seq<Single>,
    levels: spec_fn(Seq<Single>) -> Seq<Single>,
    lead: spec_fn(int) -> bool,
    silent: spec_fn(int) -> usize,
)
    requires
        0 <= n <= total,
        st.ref_len + total <= usize::MAX,
        audio.len() == total * SAMPLES_PER_FRAME,
        st.onset_done ==> st.emitted_frame + TAIL_HOLD_FRAMES <= n,
        !st.onset_done ==> st.emitted_frame == 0,
    ensures
        stream_audio(no_post(), st, n, total, audio, levels, lead, silent) == audio.skip(
            st.emitted_frame * SAMPLES_PER_FRAME,
        ),
    decreases total - n,
{
    let post = no_post();
    let from = st.emitted_frame * SAMPLES_PER_FRAME;
    let given = stream_audio(post, st, n, total, audio, levels, lead, silent);
    if n >= total {
        assert(given =~= audio.skip(from));
    } else {
        let k = n + 1;
        let (next, _) = after_frame(st, k, lead(k), silent(k));
        streams_hand_on_every_sample(next, k, total, audio, levels, lead, silent);
        match st.action(k) {
            FrameAction::Onset(_) => {
                crate::stream::onset_chunk_ends_on_a_frame(k, SAMPLES_PER_FRAME as int);
            },
            _ => {},
        }
        assert(given =~= audio.skip(from));
    }
}

/// What a stream decodes on the way are parts of what the decode of the whole
/// utterance gives, though the frames that come later were not there yet.
///
/// `audio_window` and `window` hold the latents of the windows of the two
/// decodes, `whole` those of all frames.
pub proof fn stream_decodes_are_parts_of_the_whole(
    model: Model,
    tensors: Tensors,
    reference: Seq<Seq<u32>>,
    generated: Seq<Seq<u32>>,
    q: DecodeRequest,
    whole: Seq<Seq<Single>>,
    audio_window: Seq<Seq<Single>>,
    window: Seq<Seq<Single>>,
)
    requires
        model.covered(tensors),
        reference.len() + generated.len() <= usize::MAX / 2,
        q.generated <= generated.len(),
        reference.len() <= q.keep_from < reference.len() + q.generated,
        plan_all((reference + generated).len() as int) matches Some(p) ==> model.is_window(
            p,
            reference + generated,
            whole,
        ),
        plan_after(reference.len() as int, generated.len() as int) matches Some(p)
            ==> model.is_window(p, reference + generated, audio_window),
        plan_from(reference.len() + q.generated, q.keep_from as int) matches Some(p)
            ==> model.is_window(p, reference + generated.take(q.generated as int), window),
    ensures
        ({
            let r = reference.len() as int;
            let audio = kept_samples(
                plan_after(r, generated.len() as int),
                model.upsampled(audio_window),
            );
            kept_samples(plan_from(r + q.generated, q.keep_from as int), model.upsampled(window))
                == decoded(audio, r, q)
        }),
{
    let r = reference.len() as int;
    let m = r + q.generated;
    let frames = reference + generated;
    published_audio_is_the_decode(
        model,
        tensors,
        reference,
        generated,
        whole,
        audio_window,
        Seq::empty(),
    );
    assert(frames.take(m) =~= reference + generated.take(q.generated as int));
    crate::decoder::windows_end_like_the_whole(
        model,
        tensors,
        frames,
        m,
        q.keep_from as int,
        whole,
        window,
    );
    let all = kept_samples(plan_all(frames.len() as int), model.upsampled(whole));
    let audio = kept_samples(
        plan_after(r, generated.len() as int),
        model.upsampled(audio_window),
    );
    assert(decoded(audio, r, q) =~= all.subrange(
        q.keep_from * SAMPLES_PER_FRAME,
        m * SAMPLES_PER_FRAME,
    ));
}

/// Without post-processing a stream hands on what the decode of its frames
/// behind the reference gives, 1920 samples for each frame. `st` is the stream
/// at its start; `whole` and `window` are as in
/// [`published_audio_is_the_decode`].
pub proof fn published_streams_are_the_decode(
    model: Model,
    tensors: Tensors,
    st: StreamState,
    reference: Seq<Seq<u32>>,
    generated: Seq<Seq<u32>>,
    whole: Seq<Seq<Single>>,
    window: Seq<Seq<Single>>,
    levels: spec_fn(Seq<Single>) -> Seq<Single>,
    lead: spec_fn(int) -> bool,
    silent: spec_fn(int) -> usize,
)
    requires
        st.emitted_frame == 0,
        !st.onset_done,
        st.ref_len == reference.len(),
        model.covered(tensors),
        reference.len() + generated.len() <= usize::MAX / 2,
        plan_all((reference + generated).len() as int) matches Some(p) ==> model.is_window(
            p,
            reference + generated,
            whole,
        ),
        plan_after(reference.len() as int, generated.len() as int) matches Some(p)
            ==> model.is_window(p, reference + generated, window),
    ensures
        ({
            let total = generated.len() as int;
            let raw = kept_samples(
                plan_after(reference.len() as int, total),
                model.upsampled(window),
            );
            let given = stream_audio(no_post(), st, 0, total, raw, levels, lead, silent);
            &&& given == raw
            &&& given.len() == total * SAMPLES_PER_FRAME
        }),
{
    let total = generated.len() as int;
    let raw = kept_samples(plan_after(reference.len() as int, total), model.upsampled(window));
    published_audio_is_the_decode(
        model,
        tensors,
        reference,
        generated,
        whole,
        window,
        levels(raw),
    );
    streams_hand_on_every_sample(st, 0, total, raw, levels, lead, silent);
    assert(raw.skip(0) =~= raw);
}

/// A text that is streamed is drawn like one that is synthesised in one piece:
/// the same ids, prefill and loop, so that frame `i` is the same where both
/// make it. Without a held end the frames are the same; with one the stream's
/// are the first of them. Neither the lead nor the trims and filters change
/// that.
pub proof fn streams_draw_the_same_frames(
    e: EngineView,
    text: Seq<char>,
    prompt: ClonePrompt,
    max_frames: int,
    post: PostProcess,
    hz_text: Seq<char>,
    one_piece: Request,
    streamed: Request,
    st: StreamState,
    ends: spec_fn(int) -> bool,
    lead: spec_fn(int) -> bool,
    silent: spec_fn(int) -> usize,
    frame: spec_fn(int) -> Seq<u32>,
)
    requires
        planned(one_piece, e, spoken(text, post), prompt, max_frames, post),
        planned(streamed, e, spoken(text, post), prompt, max_frames, post),
        st.hold_eos == post.hold_eos,
    ensures
        post_error(post, hz_text) is None ==> speak_error(
            e,
            spoken(text, post),
            prompt,
            post,
            hz_text,
        ) == request_error(e, spoken(text, post), prompt),
        one_piece.text@ == streamed.text@,
        one_piece.ids@ == streamed.ids@,
        one_piece.plan@ == streamed.plan@,
        one_piece.start == streamed.start,
        ({
            let all = Seq::new(frames_made(one_piece.start, ends) as nat, |i: int| frame(i));
            let taken = Seq::new(
                streamed_frames(streamed.start, st, ends, lead, silent) as nat,
                |i: int| frame(i),
            );
            &&& taken.is_prefix_of(all)
            &&& !post.hold_eos ==> taken == all
        }),
{
    crate::stream::only_held_runs_are_cut(streamed.start, st, ends, lead, silent);
    let all = Seq::new(frames_made(one_piece.start, ends) as nat, |i: int| frame(i));
    let taken = Seq::new(
        streamed_frames(streamed.start, st, ends, lead, silent) as nat,
        |i: int| frame(i),
    );
    assert(taken =~= all.subrange(0, taken.len() as int));
    if !post.hold_eos {
        assert(taken =~= all);
    }
}

/// An admitted request never outruns the cache: every position of its prefill
/// and of every frame it may make is inside.
pub proof fn admitted_requests_fit_the_cache(
    e: EngineView,
    ids: Seq<u32>,
    prompt: ClonePrompt,
    max_frames: int,
    attn_boost: bool,
)
    requires
        admit_error(e, ids, prompt) is None,
        0 <= max_frames,
    ensures
        ({
            let p = admitted_plan(ids, prompt, max_frames, attn_boost);
            p.offset + p.max_frames <= p.kv_max <= crate::pipeline::MAX_POSITIONS
        }),
{
    crate::pipeline::positions_stay_inside_the_cache(
        prompt.language,
        codes_of(prompt.ref_codes@),
        prompt.ref_text_ids@,
        ids,
        max_frames,
        attn_boost,
    );
}

/// A post-processing can be applied exactly where its low-pass, if there is one,
/// lies between 0 and 12000 Hz, both left out.
pub proof fn low_passes_lie_in_the_band(post: PostProcess, hz_text: Seq<char>)
    ensures
        post.lowpass_hz is None ==> post_error(post, hz_text) is None,
        post.lowpass_hz matches Some(hz) ==> {
            &&& post_error(post, hz_text) is None <==> (Double { bits: 0 }).less(hz) && hz.less(
                Double { bits: 0x40c7_7000_0000_0000 },
            )
            &&& post_error(post, hz_text) is Some ==> post_error(post, hz_text) == Some(
                ErrorView::InvalidConfig(
                    "lowpass_hz "@ + hz_text + " must lie in (0, 12000) at 24 kHz"@,
                ),
            )
        },
        CLONE_LPF_HZ == 0x40c4_8200_0000_0000,
        CLONE_LPF_ORDER == 6,
        DEESS_MAX_DB == 0x4140_0000,
{
}

/// The marks that a damped ending loses.
pub open spec fn ending_marks() -> Seq<char> {
    seq!['.', '?', '!', '\u{3002}', '\u{ff1f}', '\u{ff01}', '\u{2026}', ' ']
}

/// Damping cuts all marks at the end of a text and puts one comma in their
/// place: what is before them stays as it is, whatever it is. A text of nothing
/// but marks is left alone, white space around it and all.
pub proof fn endings_become_one_comma(s: Seq<char>, n: int)
    requires
        0 <= n <= trimmed(s).len(),
        forall|i: int|
            n <= i < trimmed(s).len() ==> ending_marks().contains(#[trigger] trimmed(s)[i]),
        n > 0 ==> !ending_marks().contains(trimmed(s)[n - 1]),
    ensures
        n > 0 ==> damped(s) == trimmed(s).take(n).push(','),
        n == 0 ==> damped(s) == s,
        n > 0 && damped(s).len() > 0 ==> damped(s).last() == ',',
{
    reveal_strlit(",");
    let t = trimmed(s);
    lemma_marks();
    assert(t.take(t.len() as int) =~= t);
    lemma_unterminated_to(t, t.len() as int, n);
    if n > 0 {
        assert(t.take(n).last() == t[n - 1]);
        assert(t.take(n) + ","@ =~= t.take(n).push(','));
    }
}

proof fn lemma_marks()
    ensures
        forall|c: char| terminal(c) <==> #[trigger] ending_marks().contains(c),
{
    let m = ending_marks();
    assert forall|c: char| terminal(c) <==> #[trigger] m.contains(c) by {
        assert(m[0] == '.' && m[1] == '?' && m[2] == '!' && m[3] == '\u{3002}' && m[4]
            == '\u{ff1f}' && m[5] == '\u{ff01}' && m[6] == '\u{2026}' && m[7] == ' ');
        if m.contains(c) {
            let k = choose|k: int| 0 <= k < m.len() && m[k] == c;
            assert(k == 0 || k == 1 || k == 2 || k == 3 || k == 4 || k == 5 || k == 6 || k == 7);
        }
    }
}

proof fn lemma_unterminated_to(t: Seq<char>, from: int, n: int)
    requires
        0 <= n <= from <= t.len(),
        forall|i: int| n <= i < from ==> terminal(#[trigger] t[i]),
        n > 0 ==> !terminal(t[n - 1]),
    ensures
        unterminated(t.take(from)) == t.take(n),
    decreases from - n,
{
    if from > n {
        assert(t.take(from).last() == t[from - 1]);
        assert(t.take(from).drop_last() =~= t.take(from - 1));
        lemma_unterminated_to(t, from - 1, n);
    } else if n > 0 {
        assert(t.take(n).last() == t[n - 1]);
    }
}

/// A model directory is refused for the first file that is not there, and taken
/// where all four are.
pub proof fn the_first_missing_file_is_told(present: Seq<bool>, i: int)
    requires
        0 <= i < present.len(),
    ensures
        !present[i] && (forall|k: int| 0 <= k < i ==> #[trigger] present[k]) ==> first_missing(
            present,
            0,
        ) == Some(i),
        (forall|k: int| 0 <= k < present.len() ==> #[trigger] present[k]) <==> first_missing(
            present,
            0,
        ) is None,
        model_file_list().len() == 4,
        model_file_list()[0]@ == "model.safetensors"@,
        model_file_list()[1]@ == "vocab.json"@,
        model_file_list()[2]@ == "merges.txt"@,
        model_file_list()[3]@ == "speech_tokenizer/model.safetensors"@,
{
    if !present[i] && (forall|k: int| 0 <= k < i ==> #[trigger] present[k]) {
        lemma_present_skipped(present, 0, i);
    }
    if forall|k: int| 0 <= k < present.len() ==> #[trigger] present[k] {
        lemma_present_skipped(present, 0, present.len() as int);
    }
    if first_missing(present, 0) is None {
        lemma_all_present(present, 0);
    }
}

proof fn lemma_present_skipped(present: Seq<bool>, from: int, to: int)
    requires
        0 <= from <= to <= present.len(),
        forall|k: int| from <= k < to ==> #[trigger] present[k],
    ensures
        first_missing(present, from) == first_missing(present, to),
    decreases to - from,
{
    if from < to {
        lemma_present_skipped(present, from + 1, to);
    }
}

proof fn lemma_all_present(present: Seq<bool>, from: int)
    requires
        0 <= from,
        first_missing(present, from) is None,
    ensures
        forall|k: int| from <= k < present.len() ==> #[trigger] present[k],
    decreases present.len() - from,
{
    if from < present.len() {
        lemma_all_present(present, from + 1);
    }
}

/// A frame of so many codes, all of them below 2048.
pub open spec fn speakable(frame: Seq<u32>, groups: int) -> bool {
    &&& frame.len() == groups
    &&& forall|g: int| 0 <= g < frame.len() ==> #[trigger] frame[g] < 2048
}

/// Frames for the talker are refused exactly where one has another number of
/// codes or a code that is not below 2048. The first such frame is told, with its
/// first such code.
pub proof fn the_first_strange_frame_is_told(
    what: Seq<char>,
    frames: Seq<Seq<u32>>,
    groups: int,
    i: int,
    g: int,
)
    requires
        0 <= i < frames.len(),
    ensures
        (forall|k: int| 0 <= k < frames.len() ==> #[trigger] speakable(frames[k], groups))
            <==> strange_frames(what, frames, groups, 0) is None,
        (forall|k: int| 0 <= k < i ==> #[trigger] speakable(frames[k], groups)) ==> {
            &&& frames[i].len() != groups ==> strange_frames(what, frames, groups, 0) == Some(
                ErrorView::InvalidFrames(
                    what + " "@ + digits(i as nat) + " has "@ + digits(frames[i].len())
                        + " codes, the codec takes "@ + digits(groups as nat),
                ),
            )
            &&& frames[i].len() == groups && 0 <= g < groups && frames[i][g] >= 2048 && (forall|
                k: int,
            |
                0 <= k < g ==> #[trigger] frames[i][k] < 2048) ==> strange_frames(
                what,
                frames,
                groups,
                0,
            ) == Some(
                ErrorView::InvalidFrames(
                    what + " "@ + digits(i as nat) + " holds code "@ + digits(frames[i][g] as nat)
                        + ", outside the codec's 0..2048 range"@,
                ),
            )
        },
{
    if forall|k: int| 0 <= k < frames.len() ==> #[trigger] speakable(frames[k], groups) {
        lemma_speakable_skipped(what, frames, groups, 0, frames.len() as int);
    }
    if strange_frames(what, frames, groups, 0) is None {
        lemma_all_speakable(what, frames, groups, 0);
    }
    if forall|k: int| 0 <= k < i ==> #[trigger] speakable(frames[k], groups) {
        lemma_speakable_skipped(what, frames, groups, 0, i);
        if 0 <= g < frames[i].len() {
            crate::weights::strays_are_found_in_order(frames[i], 2048, g);
        }
    }
}

proof fn lemma_speakable(what: Seq<char>, i: int, frame: Seq<u32>, groups: int)
    ensures
        strange_frame(what, i, frame, groups) is None <==> speakable(frame, groups),
{
    if frame.len() > 0 {
        crate::weights::strays_are_found_in_order(frame, 2048, 0);
    }
}

proof fn lemma_speakable_skipped(
    what: Seq<char>,
    frames: Seq<Seq<u32>>,
    groups: int,
    from: int,
    to: int,
)
    requires
        0 <= from <= to <= frames.len(),
        forall|k: int| from <= k < to ==> #[trigger] speakable(frames[k], groups),
    ensures
        strange_frames(what, frames, groups, from) == strange_frames(what, frames, groups, to),
    decreases to - from,
{
    if from < to {
        lemma_speakable(what, from, frames[from], groups);
        assert(speakable(frames[from], groups));
        lemma_speakable_skipped(what, frames, groups, from + 1, to);
    }
}

proof fn lemma_all_speakable(what: Seq<char>, frames: Seq<Seq<u32>>, groups: int, from: int)
    requires
        0 <= from,
        strange_frames(what, frames, groups, from) is None,
    ensures
        forall|k: int| from <= k < frames.len() ==> #[trigger] speakable(frames[k], groups),
    decreases frames.len() - from,
{
    if from < frames.len() {
        lemma_speakable(what, from, frames[from], groups);
        lemma_all_speakable(what, frames, groups, from + 1);
    }
}

/// Whether all ids are rows of the text table.
pub open spec fn in_vocabulary(e: EngineView, ids: Seq<u32>) -> bool {
    forall|k: int| 0 <= k < ids.len() ==> #[trigger] ids[k] < e.talker.text_rows as u32
}

/// A prompt can be used exactly where its speaker embedding has 2048 values, its
/// frames have a code below 2048 for each codebook, there are at most 2000 of
/// them, and the ids of its text are in the vocabulary. That is also the order in
/// which it is refused.
pub proof fn prompts_are_held_to_the_model(e: EngineView, prompt: ClonePrompt)
    ensures
        ({
            let frames = codes_of(prompt.ref_codes@);
            let groups = e.codebooks.len() as int;
            let values = prompt.speaker_embedding.len();
            let fit = forall|k: int|
                0 <= k < frames.len() ==> #[trigger] speakable(frames[k], groups);
            let r = prompt_error(e, prompt);
            &&& r is None <==> values == 2048 && fit && frames.len() <= 2000 && in_vocabulary(
                e,
                prompt.ref_text_ids@,
            )
            &&& values != 2048 ==> r == Some(
                ErrorView::InvalidPrompt(
                    "speaker embedding has "@ + digits(values as nat)
                        + " values, the talker takes 2048"@,
                ),
            )
            &&& values == 2048 && !fit ==> (strange_frames(
                "reference frame"@,
                frames,
                groups,
                0,
            ) matches Some(why) && r == Some(ErrorView::InvalidPrompt(message_of(why))))
            &&& values == 2048 && fit && frames.len() > 2000 ==> r == Some(
                ErrorView::ReferenceTooLong { frames: prompt.ref_codes.len(), max: 2000 },
            )
            &&& values == 2048 && fit && frames.len() <= 2000 && !in_vocabulary(
                e,
                prompt.ref_text_ids@,
            ) ==> r == Some(
                ErrorView::InvalidPrompt("reference text id outside the vocabulary"@),
            )
        }),
{
    let frames = codes_of(prompt.ref_codes@);
    let ids = prompt.ref_text_ids@;
    if frames.len() > 0 {
        the_first_strange_frame_is_told(
            "reference frame"@,
            frames,
            e.codebooks.len() as int,
            0,
            0,
        );
    }
    assert(frames.len() == prompt.ref_codes.len());
    if ids.len() > 0 {
        crate::weights::strays_are_found_in_order(ids, e.text_rows(), 0);
    }
}

/// Text can be spoken exactly where it has ids and all of them are in the
/// vocabulary. The text is held to that before the prompt is looked at, and both
/// before the post-processing.
pub proof fn requests_are_refused_in_order(
    e: EngineView,
    text: Seq<char>,
    ids: Seq<u32>,
    prompt: ClonePrompt,
    post: PostProcess,
    hz_text: Seq<char>,
)
    ensures
        ids.len() == 0 ==> text_ids_error(e, ids) == Some(ErrorView::EmptyText),
        ids.len() > 0 && in_vocabulary(e, ids) ==> text_ids_error(e, ids) is None,
        ids.len() > 0 && !in_vocabulary(e, ids) ==> text_ids_error(e, ids) == Some(
            ErrorView::InvalidPrompt("text id outside the vocabulary"@),
        ),
        text_ids_error(e, ids) is Some ==> admit_error(e, ids, prompt) == text_ids_error(e, ids),
        text_ids_error(e, ids) is None ==> admit_error(e, ids, prompt) == prompt_error(e, prompt),
        match text_ids(e.tokenizer, text) {
            Ok(found) => request_error(e, text, prompt) == admit_error(e, found, prompt),
            Err(detail) => request_error(e, text, prompt) == Some(
                ErrorView::Tokenizer("encode"@ + ": "@ + detail),
            ),
        },
        request_error(e, text, prompt) is Some ==> speak_error(e, text, prompt, post, hz_text)
            == request_error(e, text, prompt),
        request_error(e, text, prompt) is None ==> speak_error(e, text, prompt, post, hz_text)
            == post_error(post, hz_text),
        post.damp_ending ==> spoken(text, post) == damped(text),
        !post.damp_ending ==> spoken(text, post) == text,
{
    if ids.len() > 0 {
        crate::weights::strays_are_found_in_order(ids, e.text_rows(), 0);
    }
}

/// Logits along given frames are refused for a blank text, then for what a
/// request would be, then for the first frame that is no frame of sixteen codes
/// below 2048, then for what cannot be fed.
pub proof fn given_frames_are_refused_in_order(
    e: EngineView,
    text: Seq<char>,
    prompt: ClonePrompt,
    frames: Seq<Seq<u32>>,
)
    ensures
        ({
            let r = forced_error(e, text, prompt, frames);
            let request = request_error(e, text, prompt);
            let strange = strange_frames("frame"@, frames, 16, 0);
            &&& blank(text) ==> r == Some(ErrorView::EmptyText)
            &&& !blank(text) && request is Some ==> r == request
            &&& !blank(text) && request is None && strange is Some ==> r == strange
            &&& !blank(text) && request is None && strange is None ==> r is None
        }),
{
    if strange_frames("frame"@, frames, 16, 0) is None {
        lemma_all_speakable("frame"@, frames, 16, 0);
        assert forall|k: int| 0 <= k < frames.len() implies (#[trigger] frames[k]).len() > 0 by {
            assert(speakable(frames[k], 16));
        }
        crate::pipeline::whole_frames_can_be_fed(frames, prompt.ref_codes.len() as int);
    }
}

/// A model is refused for its talker first, then for its code predictor, then
/// for its decoder.
pub proof fn models_are_checked_in_order(main: Tensors, codec: Tensors)
    ensures
        ({
            let talker = talker_error(main, talker_1_7b_cfg());
            let cp = predictor_error(main, code_pred_1_7b_cfg());
            let r = model_error(main, codec);
            &&& talker is Some ==> r == talker
            &&& talker is None && cp is Some ==> r == cp
            &&& talker is None && cp is None ==> r == first_error(codec, decoder_steps())
        }),
{
}

/// What a request is planned with: the ids of its text, the prompt's reference
/// and language, the frames and the boost that were asked for, and a loop that
/// holds the end back where that was asked for.
pub proof fn requests_are_planned_as_asked(
    q: Request,
    e: EngineView,
    text: Seq<char>,
    prompt: ClonePrompt,
    max_frames: int,
    post: PostProcess,
)
    requires
        planned(q, e, text, prompt, max_frames, post),
    ensures
        text_ids(e.tokenizer, text) == Ok::<Seq<u32>, Seq<char>>(q.ids@),
        q.text@ == text,
        q.plan@ == plan_of(
            prompt.language,
            codes_of(prompt.ref_codes@),
            prompt.ref_text_ids@,
            q.ids@,
            max_frames,
            post.attn_boost,
        ),
        q.start.hold_eos == post.hold_eos,
        q.start.frame_idx == 0,
{
}

/// Silence is cut only where that was asked for, and before the speech only with
/// a reference. What is kept reaches from the one cut to the other, in windows of
/// 480 samples, and is empty where the second comes first.
pub proof fn cuts_are_made_as_asked(
    post: PostProcess,
    reference: bool,
    levels: Seq<Single>,
    len: int,
)
    ensures
        ({
            let over = Single { bits: 0x3ba3_d70a };
            let start = audio_start(post, reference, levels);
            let end = audio_end(post, levels, len);
            let (a, b) = post_range(post, reference, levels, len);
            &&& !post.leading_trim || !reference ==> start == 0
            &&& post.leading_trim && reference ==> start == leading_cut(loud(levels, over), 480)
            &&& !post.trailing_trim ==> end == len
            &&& post.trailing_trim ==> end == trailing_cut(loud(levels, over), 480, len)
            &&& a == start
            &&& start <= end ==> b == end
            &&& start > end ==> b == start
        }),
        RATE == 24_000,
{
    crate::postproc::windows_are_20_ms(24_000, 0);
}

/// The first frame count behind `n` at which a stream that has handed on nothing
/// yet finds its lead, up to `total`.
pub open spec fn lead_comes_at(lead: spec_fn(int) -> bool, n: int, k: int, total: int) -> bool {
    &&& n < k <= total
    &&& k > 8
    &&& lead(k)
    &&& forall|j: int| n < j < k && j > 8 ==> !#[trigger] lead(j)
}

/// What a stream hands on is one piece of the utterance, without a gap and with
/// nothing twice. It starts where the speech starts in what was decoded when the
/// lead came, or with the eight frames that were held back then where the speech
/// starts behind them. Where the lead never comes it starts where the speech of
/// the whole utterance starts. It ends with the utterance, or where the silence
/// behind its last chunk was cut.
pub proof fn streams_hand_on_one_piece(
    post: PostProcess,
    st: StreamState,
    n: int,
    total: int,
    audio: Seq<Single>,
    levels: spec_fn(Seq<Single>) -> Seq<Single>,
    lead: spec_fn(int) -> bool,
    silent: spec_fn(int) -> usize,
    k: int,
)
    requires
        0 <= n <= total,
        0 < total,
        st.ref_len + total <= usize::MAX,
        audio.len() == total * 1920,
        !st.onset_done,
        st.emitted_frame == 0,
        lead_comes_at(lead, n, k, total),
        forall|s: Seq<Single>|
            (#[trigger] levels(s)).len() == window_count(s.len(), RATE),
    ensures
        ({
            let given = stream_audio(post, st, n, total, audio, levels, lead, silent);
            let onset = audio_start(post, st.ref_len > 0, levels(audio.take(k * 1920)));
            let start = if onset < (k - 8) * 1920 {
                onset
            } else {
                (k - 8) * 1920
            };
            &&& 0 <= start
            &&& given == audio.subrange(start, start + given.len())
            &&& start + given.len() <= audio.len()
            &&& !post.trailing_trim ==> start + given.len() == audio.len()
        }),
    decreases total - n,
{
    let given = stream_audio(post, st, n, total, audio, levels, lead, silent);
    let m = n + 1;
    let (next, _) = after_frame(st, m, lead(m), silent(m));
    if m < k {
        assert(m > 8 ==> !lead(m));
        streams_hand_on_one_piece(post, next, m, total, audio, levels, lead, silent, k);
        assert(given =~= stream_audio(post, next, m, total, audio, levels, lead, silent));
    } else {
        let q = DecodeRequest { generated: k as usize, keep_from: st.ref_len };
        assert(st.action(k) == FrameAction::Onset(q));
        let full = decoded(audio, st.ref_len as int, q);
        assert(full =~= audio.take(k * 1920));
        let onset = audio_start(post, st.ref_len > 0, levels(full));
        lemma_audio_start(post, st.ref_len > 0, levels(full), full.len() as int);
        crate::stream::first_chunk_starts_at_the_speech(k, full.len() as int, onset);
        assert(full.len() == k * 1920);
        lemma_rest_is_one_piece(post, next, k, total, audio, levels, lead, silent);
        let rest = stream_audio(post, next, k, total, audio, levels, lead, silent);
        let ready = (k - 8) * 1920;
        if onset < ready {
            assert(given =~= audio.subrange(onset, ready) + rest);
            assert(given =~= audio.subrange(onset, onset + given.len()));
        } else {
            crate::stream::onset_chunk_ends_on_a_frame(k, 1920);
            assert(given =~= rest);
        }
    }
}

proof fn lemma_audio_start(post: PostProcess, reference: bool, levels: Seq<Single>, len: int)
    requires
        len >= 0,
        levels.len() == window_count(len as nat, RATE),
    ensures
        0 <= audio_start(post, reference, levels) <= len,
{
    let a = loud(levels, speech_level());
    crate::postproc::windows_are_20_ms(24_000, len as nat);
    crate::postproc::leading_cut_is_inside(a, 480);
}

proof fn lemma_audio_end(post: PostProcess, levels: Seq<Single>, len: int)
    requires
        len >= 0,
        levels.len() == window_count(len as nat, RATE),
    ensures
        0 <= audio_end(post, levels, len) <= len,
{
    let a = loud(levels, speech_level());
    crate::postproc::last_true_is_the_last(a, 0);
}

/// Behind the first chunk a stream hands on everything from the first frame that
/// was not handed on.
proof fn lemma_rest_is_one_piece(
    post: PostProcess,
    st: StreamState,
    n: int,
    total: int,
    audio: Seq<Single>,
    levels: spec_fn(Seq<Single>) -> Seq<Single>,
    lead: spec_fn(int) -> bool,
    silent: spec_fn(int) -> usize,
)
    requires
        0 <= n <= total,
        0 < total,
        st.ref_len + total <= usize::MAX,
        audio.len() == total * 1920,
        st.onset_done,
        st.emitted_frame + 8 <= n,
        forall|s: Seq<Single>|
            (#[trigger] levels(s)).len() == window_count(s.len(), RATE),
    ensures
        ({
            let given = stream_audio(post, st, n, total, audio, levels, lead, silent);
            let start = st.emitted_frame * 1920;
            &&& given == audio.subrange(start, start + given.len())
            &&& start + given.len() <= audio.len()
            &&& !post.trailing_trim ==> start + given.len() == audio.len()
        }),
    decreases total - n,
{
    let given = stream_audio(post, st, n, total, audio, levels, lead, silent);
    let start = st.emitted_frame * 1920;
    if n >= total {
        let rest = audio.skip(start);
        let q = DecodeRequest {
            generated: total as usize,
            keep_from: (st.ref_len + st.emitted_frame) as usize,
        };
        assert(st.last_action(total) == FinalAction::Rest(q));
        assert(decoded(audio, st.ref_len as int, q) =~= rest);
        lemma_audio_end(post, levels(rest), rest.len() as int);
        assert(given =~= audio.subrange(start, start + given.len()));
    } else {
        let m = n + 1;
        let (next, _) = after_frame(st, m, lead(m), silent(m));
        lemma_rest_is_one_piece(post, next, m, total, audio, levels, lead, silent);
        let rest = stream_audio(post, next, m, total, audio, levels, lead, silent);
        match st.action(m) {
            FrameAction::Wait => {
                assert(given =~= rest);
            },
            FrameAction::Onset(_) => {},
            FrameAction::Tail(q) => {
                assert(decoded(audio, st.ref_len as int, q) =~= audio.subrange(
                    start,
                    (m - 8) * 1920,
                ));
                assert(given =~= audio.subrange(start, start + given.len()));
            },
        }
    }
}

/// A stream whose lead never comes hands on one piece of the utterance at its
/// end, from where the speech starts.
pub proof fn streams_without_a_lead_wait_for_the_end(
    post: PostProcess,
    st: StreamState,
    n: int,
    total: int,
    audio: Seq<Single>,
    levels: spec_fn(Seq<Single>) -> Seq<Single>,
    lead: spec_fn(int) -> bool,
    silent: spec_fn(int) -> usize,
)
    requires
        0 <= n <= total,
        0 < total,
        st.ref_len + total <= usize::MAX,
        audio.len() == total * 1920,
        !st.onset_done,
        st.emitted_frame == 0,
        forall|k: int| n < k <= total && k > 8 ==> !#[trigger] lead(k),
        forall|s: Seq<Single>|
            (#[trigger] levels(s)).len() == window_count(s.len(), RATE),
    ensures
        ({
            let given = stream_audio(post, st, n, total, audio, levels, lead, silent);
            let start = audio_start(post, st.ref_len > 0, levels(audio));
            let rest = audio.skip(start);
            &&& 0 <= start <= audio.len()
            &&& given == rest.take(given.len() as int)
            &&& given.len() == audio_end(post, levels(rest), rest.len() as int)
        }),
    decreases total - n,
{
    let given = stream_audio(post, st, n, total, audio, levels, lead, silent);
    lemma_audio_start(post, st.ref_len > 0, levels(audio), audio.len() as int);
    if n >= total {
        let q = DecodeRequest { generated: total as usize, keep_from: st.ref_len };
        assert(st.last_action(total) == FinalAction::Whole(q));
        assert(decoded(audio, st.ref_len as int, q) =~= audio);
        let rest = audio.skip(audio_start(post, st.ref_len > 0, levels(audio)));
        lemma_audio_end(post, levels(rest), rest.len() as int);
    } else {
        let m = n + 1;
        let (next, _) = after_frame(st, m, lead(m), silent(m));
        assert(m > 8 ==> !lead(m));
        streams_without_a_lead_wait_for_the_end(
            post,
            next,
            m,
            total,
            audio,
            levels,
            lead,
            silent,
        );
        assert(given =~= stream_audio(post, next, m, total, audio, levels, lead, silent));
    }
}

} // verus!
