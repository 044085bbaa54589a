//! The generation loop: what goes into the prefill, and which frame ends it.

use crate::error::{ErrorView, TtsError};
use crate::ieee::Single;
use crate::lang::{prefix_of, Language};
use crate::text::{decimal, digits};
use vstd::prelude::*;

verus! {

pub const IM_START: u32 = 151644;

pub const ASSISTANT: u32 = 77091;

pub const NEWLINE: u32 = 198;

pub const TTS_PAD: u32 = 151671;

pub const TTS_BOS: u32 = 151672;

pub const TTS_EOS: u32 = 151673;

pub const CODEC_PAD: u32 = 2148;

pub const CODEC_BOS: u32 = 2149;

pub const CODEC_THINK: u32 = 2154;

pub const CODEC_THINK_BOS: u32 = 2156;

pub const CODEC_THINK_EOS: u32 = 2157;

/// Codes in a frame: one semantic, fifteen acoustic.
pub const FRAME_CODES: usize = 16;

/// The acoustic codes of a frame.
pub const ACOUSTIC_CODES: usize = 15;

/// Positions the prefill is estimated to need besides the reference frames.
pub const HEADER_POSITIONS: usize = 24;

/// Positions that are never used for frames.
pub const SPARE_POSITIONS: usize = 8;

/// Positions of the largest cache, and of the talker's rotary table.
pub const MAX_POSITIONS: usize = 2048;

/// Frames past the last text token during which the end is still masked. The
/// sound of a token spans a frame or two after it is fed; allowing the end the
/// instant the text is over would clip the final phoneme.
pub const EOS_GRACE: usize = 3;

/// Frames that are still made once the end has come up.
pub const RELEASE_FRAMES: usize = 3;

/// What an utterance is conditioned on.
pub struct ClonePrompt {
    /// Codec language token for the prefill. The model picks its phonology
    /// from this, so it has to match the text being spoken.
    pub language: Language,
    pub speaker_embedding: Vec<Single>,
    pub ref_codes: Vec<Vec<u32>>,
    pub ref_text_ids: Vec<u32>,
}

/// Frames as sequences of codes.
pub open spec fn codes_of(frames: Seq<Vec<u32>>) -> Seq<Seq<u32>> {
    frames.map_values(|f: Vec<u32>| f@)
}

/// The size of the key/value cache for an utterance. Every step attends over
/// the whole cache, so a large one slows short messages down and a small one
/// cuts long passages off.
pub open spec fn cache_size(ref_frames: int, max_frames: int) -> int {
    let need = ref_frames + HEADER_POSITIONS + max_frames;
    if need <= 448 {
        448
    } else if need <= 1024 {
        1024
    } else {
        MAX_POSITIONS as int
    }
}

/// How many frames an utterance may have: what was asked for, or what the
/// cache has room for.
pub open spec fn frame_limit(ref_frames: int, max_frames: int) -> int {
    let room = cache_size(ref_frames, max_frames) - (ref_frames + HEADER_POSITIONS
        + SPARE_POSITIONS);
    if room <= 0 {
        0
    } else if max_frames <= room {
        max_frames
    } else {
        room
    }
}

/// The reference shown in context: text over codes, position by position.
#[derive(Debug)]
pub struct IclPlan {
    /// The semantic code of each reference frame.
    pub semantic: Vec<u32>,
    /// The acoustic codes of the reference frames, group by group.
    pub groups: Vec<Vec<u32>>,
    /// The reference text, the text and the end of text.
    pub text: Vec<u32>,
    /// How many of those stand over the codes.
    pub head: usize,
    /// How many pads stand behind them.
    pub pads: usize,
}

/// Everything the prefill consists of.
#[derive(Debug)]
pub struct PrefillPlan {
    /// Positions in the key/value cache.
    pub kv_max: usize,
    /// Frames the loop may make.
    pub max_frames: usize,
    /// The role header, as text.
    pub role: Vec<u32>,
    /// Codec tokens before the speaker vector.
    pub codec_prefix: Vec<u32>,
    /// Codec tokens after it.
    pub codec_suffix: Vec<u32>,
    /// The text under all codec positions but the last.
    pub text_under: Vec<u32>,
    /// The text under the last codec position, where there is no reference.
    pub first_text: Option<u32>,
    /// The reference, where there is one.
    pub icl: Option<IclPlan>,
    /// The text that is fed one token per frame.
    pub trailing: Vec<u32>,
    /// Positions that the header takes up.
    pub header_len: usize,
    /// Positions that the whole prefill takes up.
    pub offset: usize,
    /// The end of the span that attention is drawn to; 0 for none.
    pub boost_boundary: usize,
}

/// [`IclPlan`] with its lists as sequences.
pub struct IclView {
    pub semantic: Seq<u32>,
    pub groups: Seq<Seq<u32>>,
    pub text: Seq<u32>,
    pub head: int,
    pub pads: int,
}

/// [`PrefillPlan`] with its lists as sequences.
pub struct PlanView {
    pub kv_max: int,
    pub max_frames: int,
    pub role: Seq<u32>,
    pub codec_prefix: Seq<u32>,
    pub codec_suffix: Seq<u32>,
    pub text_under: Seq<u32>,
    pub first_text: Option<u32>,
    pub icl: Option<IclView>,
    pub trailing: Seq<u32>,
    pub header_len: int,
    pub offset: int,
    pub boost_boundary: int,
}

impl View for IclPlan {
    type V = IclView;

    open spec fn view(&self) -> IclView {
        IclView {
            semantic: self.semantic@,
            groups: codes_of(self.groups@),
            text: self.text@,
            head: self.head as int,
            pads: self.pads as int,
        }
    }
}

impl View for PrefillPlan {
    type V = PlanView;

    open spec fn view(&self) -> PlanView {
        PlanView {
            kv_max: self.kv_max as int,
            max_frames: self.max_frames as int,
            role: self.role@,
            codec_prefix: self.codec_prefix@,
            codec_suffix: self.codec_suffix@,
            text_under: self.text_under@,
            first_text: self.first_text,
            icl: match self.icl {
                None => None,
                Some(p) => Some(p@),
            },
            trailing: self.trailing@,
            header_len: self.header_len as int,
            offset: self.offset as int,
            boost_boundary: self.boost_boundary as int,
        }
    }
}

/// The text of an utterance with a reference: the reference's text, the text
/// itself, the end.
pub open spec fn whole_text(ref_text: Seq<u32>, text: Seq<u32>) -> Seq<u32> {
    (ref_text + text).push(TTS_EOS)
}

/// Code `g` of each frame.
pub open spec fn column(frames: Seq<Seq<u32>>, g: int) -> Seq<u32> {
    frames.map_values(|f: Seq<u32>| f[g])
}

/// The reference in context. Its codes take a position each, behind a begin
/// token; the text stands over them, padded where it is shorter.
pub open spec fn icl_of(frames: Seq<Seq<u32>>, text: Seq<u32>) -> IclView {
    let n_codec = frames.len() + 1;
    IclView {
        semantic: column(frames, 0),
        groups: Seq::new(ACOUSTIC_CODES as nat, |g: int| column(frames, g + 1)),
        text,
        head: if text.len() > n_codec {
            n_codec as int
        } else {
            text.len() as int
        },
        pads: if text.len() > n_codec {
            0
        } else {
            n_codec - text.len()
        },
    }
}

/// The text that is left for the frames. With a reference it is what does not
/// fit over the codes, or a single pad; without one it is all but the first
/// token, and the end.
pub open spec fn trailing_of(frames: Seq<Seq<u32>>, ref_text: Seq<u32>, text: Seq<u32>) -> Seq<u32> {
    if frames.len() == 0 {
        text.skip(1).push(TTS_EOS)
    } else {
        let all = whole_text(ref_text, text);
        if all.len() > frames.len() + 1 {
            all.skip(frames.len() as int + 1)
        } else {
            seq![TTS_PAD]
        }
    }
}

/// Positions of the header: the role, the codec prefix, the speaker, and the
/// suffix's pad; its last token is held back for the text.
pub open spec fn header_positions(language: Language) -> int {
    prefix_of(language).len() as int + 5
}

/// The prefill of an utterance.
pub open spec fn plan_of(
    language: Language,
    frames: Seq<Seq<u32>>,
    ref_text: Seq<u32>,
    text: Seq<u32>,
    max_frames: int,
    attn_boost: bool,
) -> PlanView {
    let icl = frames.len() > 0;
    let header = header_positions(language);
    let trailing = trailing_of(frames, ref_text, text);
    let offset = if icl {
        header + frames.len() + 1
    } else {
        header + 1
    };
    PlanView {
        kv_max: cache_size(frames.len() as int, max_frames),
        max_frames: frame_limit(frames.len() as int, max_frames),
        role: seq![IM_START, ASSISTANT, NEWLINE],
        codec_prefix: prefix_of(language),
        codec_suffix: seq![CODEC_PAD, CODEC_BOS],
        text_under: Seq::new((prefix_of(language).len() + 1) as nat, |i: int| TTS_PAD).push(
            TTS_BOS,
        ),
        first_text: if icl {
            None
        } else {
            Some(text[0])
        },
        icl: if icl {
            Some(icl_of(frames, whole_text(ref_text, text)))
        } else {
            None
        },
        trailing,
        header_len: if icl {
            header
        } else {
            header + 1
        },
        offset,
        boost_boundary: if icl && attn_boost && trailing.len() > 1 {
            offset
        } else {
            0
        },
    }
}

fn column_of(frames: &Vec<Vec<u32>>, g: usize) -> (r: Vec<u32>)
    requires
        forall|i: int| 0 <= i < frames.len() ==> (#[trigger] frames[i]).len() > g,
    ensures
        r@ == column(codes_of(frames@), g as int),
{
    let mut out: Vec<u32> = Vec::new();
    let mut i: usize = 0;
    while i < frames.len()
        invariant
            i <= frames.len(),
            forall|i: int| 0 <= i < frames.len() ==> (#[trigger] frames[i]).len() > g,
            out@ =~= column(codes_of(frames@), g as int).take(i as int),
        decreases frames.len() - i,
    {
        out.push(frames[i][g]);
        i = i + 1;
    }
    assert(out@ =~= column(codes_of(frames@), g as int));
    out
}

fn acoustic_groups(frames: &Vec<Vec<u32>>) -> (r: Vec<Vec<u32>>)
    requires
        forall|i: int| 0 <= i < frames.len() ==> (#[trigger] frames[i]).len() >= FRAME_CODES,
    ensures
        codes_of(r@) == Seq::new(
            ACOUSTIC_CODES as nat,
            |g: int| column(codes_of(frames@), g + 1),
        ),
{
    let mut out: Vec<Vec<u32>> = Vec::new();
    let mut g: usize = 1;
    while g < FRAME_CODES
        invariant
            1 <= g <= FRAME_CODES,
            forall|i: int| 0 <= i < frames.len() ==> (#[trigger] frames[i]).len() >= FRAME_CODES,
            out.len() == g - 1,
            forall|k: int|
                0 <= k < g - 1 ==> (#[trigger] out[k])@ == column(codes_of(frames@), k + 1),
        decreases FRAME_CODES - g,
    {
        out.push(column_of(frames, g));
        g = g + 1;
    }
    assert(codes_of(out@) =~= Seq::new(
        ACOUSTIC_CODES as nat,
        |g: int| column(codes_of(frames@), g + 1),
    ));
    out
}

fn tail_of(v: &Vec<u32>, from: usize) -> (r: Vec<u32>)
    requires
        from <= v.len(),
    ensures
        r@ == v@.skip(from as int),
{
    let r: Vec<u32> = vstd::slice::slice_to_vec(
        vstd::slice::slice_subrange(v.as_slice(), from, v.len()),
    );
    assert(r@ =~= v@.skip(from as int));
    r
}

impl PrefillPlan {
    /// Plans the prefill of an utterance. An empty text is refused.
    ///
    /// The prefill is the role header, the codec prefix with the speaker
    /// vector, and the reference in context; the input text is not part of it
    /// beyond the first token, it is fed one token per generated frame.
    pub fn new(text: &[u32], prompt: &ClonePrompt, max_frames: usize, attn_boost: bool) -> (r:
        Result<PrefillPlan, TtsError>)
        requires
            forall|i: int|
                0 <= i < prompt.ref_codes.len() ==> (#[trigger] prompt.ref_codes[i]).len()
                    >= FRAME_CODES,
            prompt.ref_codes.len() + 64 <= usize::MAX,
        ensures
            match r {
                Ok(p) => text.len() > 0 && p@ == plan_of(
                    prompt.language,
                    codes_of(prompt.ref_codes@),
                    prompt.ref_text_ids@,
                    text@,
                    max_frames as int,
                    attn_boost,
                ),
                Err(e) => text.len() == 0 && e@ == ErrorView::EmptyText,
            },
            r matches Ok(p) ==> prompt.ref_codes.len() > 0 ==> {
                &&& p.icl matches Some(c)
                &&& c.semantic.len() == prompt.ref_codes.len()
                &&& c.groups.len() == 15
                &&& forall|i: int|
                    0 <= i < prompt.ref_codes.len() ==> #[trigger] c.semantic[i]
                        == prompt.ref_codes[i][0]
                &&& forall|g: int, i: int|
                    0 <= g < 15 && 0 <= i < prompt.ref_codes.len() ==> #[trigger] c.groups[g][i]
                        == prompt.ref_codes[i][g + 1]
            },
    {
        if text.len() == 0 {
            return Err(TtsError::EmptyText);
        }
        let ref_len: usize = prompt.ref_codes.len();
        let estimate: usize = ref_len + HEADER_POSITIONS;
        let need: usize = estimate.saturating_add(max_frames);
        let kv_max: usize = if need <= 448 {
            448
        } else if need <= 1024 {
            1024
        } else {
            MAX_POSITIONS
        };
        let room: usize = kv_max.saturating_sub(estimate + SPARE_POSITIONS);
        let limit: usize = if max_frames <= room {
            max_frames
        } else {
            room
        };
        let icl: bool = ref_len > 0;
        let codec_prefix: Vec<u32> = prompt.language.codec_prefix();
        let mut text_under: Vec<u32> = vec![TTS_PAD; codec_prefix.len() + 1];
        text_under.push(TTS_BOS);
        let header: usize = 3 + codec_prefix.len() + 2;
        let ghost all: Seq<u32> = whole_text(prompt.ref_text_ids@, text@);
        let ghost frames: Seq<Seq<u32>> = codes_of(prompt.ref_codes@);
        let (plan, trailing): (Option<IclPlan>, Vec<u32>) = if icl {
            let mut whole: Vec<u32> = vstd::slice::slice_to_vec(prompt.ref_text_ids.as_slice());
            whole.extend_from_slice(text);
            whole.push(TTS_EOS);
            assert(whole@ =~= all);
            let n_codec: usize = ref_len + 1;
            let semantic: Vec<u32> = column_of(&prompt.ref_codes, 0);
            let groups: Vec<Vec<u32>> = acoustic_groups(&prompt.ref_codes);
            if whole.len() > n_codec {
                let trailing: Vec<u32> = tail_of(&whole, n_codec);
                let p: IclPlan = IclPlan { semantic, groups, text: whole, head: n_codec, pads: 0 };
                assert(p@ == icl_of(frames, all));
                (Some(p), trailing)
            } else {
                let head: usize = whole.len();
                let pads: usize = n_codec - head;
                let p: IclPlan = IclPlan { semantic, groups, text: whole, head, pads };
                assert(p@ == icl_of(frames, all));
                (Some(p), vec![TTS_PAD])
            }
        } else {
            let mut rest: Vec<u32> = vstd::slice::slice_to_vec(
                vstd::slice::slice_subrange(text, 1, text.len()),
            );
            rest.push(TTS_EOS);
            assert(rest@ =~= text@.skip(1).push(TTS_EOS));
            (None, rest)
        };
        let offset: usize = if icl {
            header + ref_len + 1
        } else {
            header + 1
        };
        let boost: bool = icl && attn_boost && trailing.len() > 1;
        let r: PrefillPlan = PrefillPlan {
            kv_max,
            max_frames: limit,
            role: vec![IM_START, ASSISTANT, NEWLINE],
            codec_prefix,
            codec_suffix: vec![CODEC_PAD, CODEC_BOS],
            text_under,
            first_text: if icl {
                None
            } else {
                Some(text[0])
            },
            icl: plan,
            trailing,
            header_len: if icl {
                header
            } else {
                header + 1
            },
            offset,
            boost_boundary: if boost {
                offset
            } else {
                0
            },
        };
        proof {
            let want = plan_of(
                prompt.language,
                frames,
                prompt.ref_text_ids@,
                text@,
                max_frames as int,
                attn_boost,
            );
            assert(r@.text_under =~= want.text_under);
            assert(r@.role =~= want.role);
            assert(r@.codec_suffix =~= want.codec_suffix);
            assert(r@.trailing =~= want.trailing);
            assert(r@.icl == want.icl);
            if prompt.ref_codes.len() > 0 {
                let c = r.icl->0;
                assert(c@ == icl_of(frames, all));
                reference_codes_stand_in_context(frames, all);
                assert forall|i: int| 0 <= i < prompt.ref_codes.len() implies #[trigger] c.semantic[i]
                    == prompt.ref_codes[i][0] by {
                    assert(c@.semantic[i] == frames[i][0]);
                }
                assert(c@.groups.len() == c.groups.len());
                assert forall|g: int, i: int|
                    0 <= g < 15 && 0 <= i < prompt.ref_codes.len() implies #[trigger] c.groups[g][i]
                    == prompt.ref_codes[i][g + 1] by {
                    assert(c@.groups[g][i] == frames[i][g + 1]);
                    assert(c@.groups[g] == c.groups[g]@);
                }
            }
        }
        Ok(r)
    }
}

/// The first empty frame from `from` on.
pub open spec fn first_empty(frames: Seq<Seq<u32>>, from: int) -> Option<int>
    decreases frames.len() - from,
{
    if from >= frames.len() {
        None
    } else if frames[from].len() == 0 {
        Some(from)
    } else {
        first_empty(frames, from + 1)
    }
}

/// How many frames the largest cache has room for behind a reference.
pub open spec fn forced_room(ref_frames: int) -> int {
    let room = MAX_POSITIONS - (ref_frames + HEADER_POSITIONS + SPARE_POSITIONS);
    if room < 0 {
        0
    } else {
        room
    }
}

/// How many of `n` given frames are fed: all of them, as far as the largest
/// cache goes.
pub open spec fn fed_frames(n: int, ref_frames: int) -> int {
    if n <= forced_room(ref_frames) {
        n
    } else {
        forced_room(ref_frames)
    }
}

/// Why frames cannot be fed through the talker as if generated, if they cannot:
/// one that would be fed is empty.
pub open spec fn forcing_error(frames: Seq<Seq<u32>>, ref_frames: int) -> Option<ErrorView> {
    match first_empty(frames.take(fed_frames(frames.len() as int, ref_frames)), 0) {
        Some(i) => Some(ErrorView::InvalidFrames("frame "@ + digits(i as nat) + " is empty"@)),
        None => None,
    }
}

/// The prefill in front of `n` given frames. The spare positions are asked for
/// too, so that the cache is one with room for all of them, if there is one.
pub open spec fn forced_plan(
    language: Language,
    reference: Seq<Seq<u32>>,
    ref_text: Seq<u32>,
    text: Seq<u32>,
    n: int,
) -> PlanView {
    let asked = if n == 0 {
        1
    } else {
        n
    };
    plan_of(language, reference, ref_text, text, asked + SPARE_POSITIONS, false)
}

/// How the `i`-th given frame is fed: at the next position, with the next text
/// token or the pad.
pub open spec fn forced_step(plan: PlanView, i: int) -> FrameStep {
    FrameStep {
        text: if i < plan.trailing.len() {
            TextRow::Trailing(i as usize)
        } else {
            TextRow::Pad
        },
        position: (plan.offset + i) as usize,
        last: false,
    }
}

/// A prefill and how each of some given frames is fed behind it.
#[derive(Debug)]
pub struct ForcedPlan {
    pub plan: PrefillPlan,
    pub steps: Vec<FrameStep>,
}

impl ForcedPlan {
    /// The plan of `n` frames behind a prefill: one step for each, inside the
    /// cache.
    pub open spec fn feeds(&self, plan: PlanView, n: int) -> bool {
        &&& self.plan@ == plan
        &&& self.steps@ == Seq::new(n as nat, |i: int| forced_step(plan, i))
        &&& n > 0 ==> plan.offset + n <= plan.kv_max <= MAX_POSITIONS
    }
}

fn find_empty(frames: &Vec<Vec<u32>>, n: usize) -> (r: Option<usize>)
    requires
        n <= frames.len(),
    ensures
        match r {
            Some(i) => first_empty(codes_of(frames@).take(n as int), 0) == Some(i as int),
            None => first_empty(codes_of(frames@).take(n as int), 0) is None,
        },
{
    let ghost fed: Seq<Seq<u32>> = codes_of(frames@).take(n as int);
    let mut i: usize = 0;
    while i < n
        invariant
            i <= n <= frames.len(),
            fed == codes_of(frames@).take(n as int),
            first_empty(fed, 0) == first_empty(fed, i as int),
        decreases n - i,
    {
        if frames[i].len() == 0 {
            return Some(i);
        }
        i = i + 1;
    }
    None
}

/// The plan for feeding given frames as if they had been generated, to see the
/// talker's logits along them: after the prefill and after each step, so that
/// `frames.len() + 1` of them come out. Frames that not even the largest cache
/// has room for are not fed.
pub fn forced_logits(text: &[u32], prompt: &ClonePrompt, frames: &Vec<Vec<u32>>) -> (r: Result<
    ForcedPlan,
    TtsError,
>)
    requires
        forall|i: int|
            0 <= i < prompt.ref_codes.len() ==> (#[trigger] prompt.ref_codes[i]).len()
                >= FRAME_CODES,
        prompt.ref_codes.len() + 64 <= usize::MAX,
    ensures
        match r {
            Ok(p) => {
                &&& text.len() > 0
                &&& forcing_error(codes_of(frames@), prompt.ref_codes.len() as int) is None
                &&& p.feeds(
                    forced_plan(
                        prompt.language,
                        codes_of(prompt.ref_codes@),
                        prompt.ref_text_ids@,
                        text@,
                        frames.len() as int,
                    ),
                    fed_frames(frames.len() as int, prompt.ref_codes.len() as int),
                )
            },
            Err(e) => if text.len() == 0 {
                e@ == ErrorView::EmptyText
            } else {
                forcing_error(codes_of(frames@), prompt.ref_codes.len() as int) == Some(e@)
            },
        },
{
    let asked: usize = if frames.len() == 0 {
        1
    } else {
        frames.len()
    };
    let plan: PrefillPlan = PrefillPlan::new(
        text,
        prompt,
        asked.saturating_add(SPARE_POSITIONS),
        false,
    )?;
    let n: usize = if frames.len() <= plan.max_frames {
        frames.len()
    } else {
        plan.max_frames
    };
    match find_empty(frames, n) {
        Some(i) => {
            return Err(
                TtsError::InvalidFrames(
                    "frame ".to_string().concat(decimal(i as u64).as_str()).concat(" is empty"),
                ),
            );
        },
        None => {},
    }
    let mut steps: Vec<FrameStep> = Vec::new();
    let mut i: usize = 0;
    while i < n
        invariant
            i <= n,
            plan.offset + n <= usize::MAX,
            steps@ =~= Seq::new(i as nat, |i: int| forced_step(plan@, i)),
        decreases n - i,
    {
        steps.push(
            FrameStep {
                text: if i < plan.trailing.len() {
                    TextRow::Trailing(i)
                } else {
                    TextRow::Pad
                },
                position: plan.offset + i,
                last: false,
            },
        );
        i = i + 1;
    }
    Ok(ForcedPlan { plan, steps })
}

/// What a frame's first token leads to.
#[derive(Clone, Copy, PartialEq, Eq, Debug, Structural)]
pub enum TokenAction {
    /// The utterance is over.
    Stop,
    /// Draw again with the end masked.
    Redraw,
    /// The token opens the frame.
    Use,
}

/// The text that is added to a frame before it is fed back.
#[derive(Clone, Copy, PartialEq, Eq, Debug, Structural)]
pub enum TextRow {
    /// A token of the trailing text.
    Trailing(usize),
    /// The pad.
    Pad,
}

/// A frame that is being made.
#[derive(Clone, Copy, PartialEq, Eq, Debug, Structural)]
pub struct FrameStep {
    /// The text it is fed back with.
    pub text: TextRow,
    /// The position it is fed back at.
    pub position: usize,
    /// Nothing follows it.
    pub last: bool,
}

/// Where the generation loop stands.
///
/// For each frame, [`FrameLoop::masked`] says whether there is one and whether
/// the end is masked in its draw; [`FrameLoop::on_token`] takes the drawn
/// token; [`FrameLoop::advance`] says how the frame is fed back.
#[derive(Clone, Copy, PartialEq, Eq, Debug, Structural)]
pub struct FrameLoop {
    /// Mask the end until the text is spent, then let a short release play
    /// out. Without it the loop stops at the first end.
    pub hold_eos: bool,
    pub trailing_len: usize,
    pub max_frames: usize,
    /// Frames so far.
    pub frame_idx: usize,
    /// Frames left of the release; 0 while there is none.
    pub releasing: usize,
    /// The next position.
    pub offset: usize,
}

impl FrameLoop {
    /// The end cannot be drawn for the next frame.
    pub open spec fn blocked(self) -> bool {
        self.hold_eos && (self.frame_idx < self.trailing_len + EOS_GRACE || self.releasing > 0)
    }

    /// The loop at its start.
    pub open spec fn start_of(plan: PlanView, hold_eos: bool) -> FrameLoop {
        FrameLoop {
            hold_eos,
            trailing_len: plan.trailing.len() as usize,
            max_frames: plan.max_frames as usize,
            frame_idx: 0,
            releasing: 0,
            offset: plan.offset as usize,
        }
    }

    /// The loop after its first draw came out as the end or not.
    pub open spec fn after_token(self, end: bool) -> FrameLoop {
        if end && self.hold_eos {
            FrameLoop { releasing: RELEASE_FRAMES, ..self }
        } else {
            self
        }
    }

    /// The loop behind the frame that is being made.
    pub open spec fn after_frame(self) -> FrameLoop {
        FrameLoop {
            frame_idx: (self.frame_idx + 1) as usize,
            releasing: if self.releasing > 0 {
                (self.releasing - 1) as usize
            } else {
                0
            },
            offset: (self.offset + 1) as usize,
            ..self
        }
    }

    /// The loop behind a prefill.
    pub fn start(plan: &PrefillPlan, hold_eos: bool) -> (r: FrameLoop)
        ensures
            r == FrameLoop::start_of(plan@, hold_eos),
    {
        FrameLoop {
            hold_eos,
            trailing_len: plan.trailing.len(),
            max_frames: plan.max_frames,
            frame_idx: 0,
            releasing: 0,
            offset: plan.offset,
        }
    }

    /// Whether the end is masked for the next frame; nothing where there is no
    /// next frame.
    pub fn masked(&self) -> (r: Option<bool>)
        ensures
            r == if self.frame_idx < self.max_frames {
                Some(self.blocked())
            } else {
                None
            },
    {
        if self.frame_idx < self.max_frames {
            let spoken: bool = self.frame_idx >= self.trailing_len && self.frame_idx
                - self.trailing_len >= EOS_GRACE;
            Some(self.hold_eos && (!spoken || self.releasing > 0))
        } else {
            None
        }
    }

    /// Takes the token that was drawn for the next frame.
    pub fn on_token(&mut self, tok: u32) -> (r: TokenAction)
        ensures
            *final(self) == old(self).after_token(tok == crate::sampling::CODEC_EOS),
            r == if tok != crate::sampling::CODEC_EOS {
                TokenAction::Use
            } else if old(self).hold_eos {
                TokenAction::Redraw
            } else {
                TokenAction::Stop
            },
    {
        if tok != crate::sampling::CODEC_EOS {
            TokenAction::Use
        } else if self.hold_eos {
            self.releasing = RELEASE_FRAMES;
            TokenAction::Redraw
        } else {
            TokenAction::Stop
        }
    }

    /// Moves past the frame whose token was settled.
    pub fn advance(&mut self) -> (r: FrameStep)
        requires
            old(self).frame_idx < old(self).max_frames,
            old(self).offset < usize::MAX,
        ensures
            *final(self) == old(self).after_frame(),
            r == (FrameStep {
                text: if old(self).frame_idx < old(self).trailing_len {
                    TextRow::Trailing(old(self).frame_idx)
                } else {
                    TextRow::Pad
                },
                position: old(self).offset,
                last: old(self).releasing == 1,
            }),
    {
        let step: FrameStep = FrameStep {
            text: if self.frame_idx < self.trailing_len {
                TextRow::Trailing(self.frame_idx)
            } else {
                TextRow::Pad
            },
            position: self.offset,
            last: self.releasing == 1,
        };
        if self.releasing > 0 {
            self.releasing = self.releasing - 1;
        }
        self.frame_idx = self.frame_idx + 1;
        self.offset = self.offset + 1;
        step
    }
}

/// How many frames come out of the loop from `lp` on, where `ends(i)` says
/// whether the draw for frame `i` would come out as the end if that is not
/// masked, and the caller never stops it.
pub open spec fn frames_made(lp: FrameLoop, ends: spec_fn(int) -> bool) -> int
    decreases lp.max_frames - lp.frame_idx,
{
    if lp.frame_idx >= lp.max_frames {
        0
    } else {
        let end = !lp.blocked() && ends(lp.frame_idx as int);
        if end && !lp.hold_eos {
            0
        } else {
            let settled = lp.after_token(end);
            if settled.releasing == 1 {
                1
            } else {
                1 + frames_made(settled.after_frame(), ends)
            }
        }
    }
}

/// The first draw from `from` on, and below `to`, that comes out as the end;
/// `to` where none does.
pub open spec fn first_end(ends: spec_fn(int) -> bool, from: int, to: int) -> int
    decreases to - from,
{
    if from >= to {
        to
    } else if ends(from) {
        from
    } else {
        first_end(ends, from + 1, to)
    }
}

/// The loop never makes more frames than it may.
pub proof fn frames_stay_within_the_limit(lp: FrameLoop, ends: spec_fn(int) -> bool)
    ensures
        0 <= frames_made(lp, ends),
        lp.frame_idx <= lp.max_frames ==> lp.frame_idx + frames_made(lp, ends) <= lp.max_frames,
    decreases lp.max_frames - lp.frame_idx,
{
    if lp.frame_idx < lp.max_frames {
        let end = !lp.blocked() && ends(lp.frame_idx as int);
        frames_stay_within_the_limit(lp.after_token(end).after_frame(), ends);
    }
}

/// Without a held end the loop stops at the first end: the frames are those
/// before it, or as many as there may be.
pub proof fn first_end_stops(lp: FrameLoop, ends: spec_fn(int) -> bool)
    requires
        !lp.hold_eos,
        lp.releasing == 0,
        lp.frame_idx <= lp.max_frames,
    ensures
        lp.frame_idx + frames_made(lp, ends) == first_end(
            ends,
            lp.frame_idx as int,
            lp.max_frames as int,
        ),
    decreases lp.max_frames - lp.frame_idx,
{
    if lp.frame_idx < lp.max_frames && !ends(lp.frame_idx as int) {
        first_end_stops(lp.after_token(false).after_frame(), ends);
    }
}

/// A held end cannot stop the loop before all text was fed and a grace has
/// passed; from the first end behind that on, exactly the release is made.
pub proof fn held_end_releases(lp: FrameLoop, ends: spec_fn(int) -> bool)
    requires
        lp.hold_eos,
        lp.releasing == 0,
        lp.frame_idx <= lp.max_frames,
    ensures
        ({
            let spoken = lp.trailing_len + EOS_GRACE;
            let from = if lp.frame_idx < spoken {
                spoken
            } else {
                lp.frame_idx as int
            };
            let end = first_end(ends, from, lp.max_frames as int);
            let made = lp.frame_idx + frames_made(lp, ends);
            made == if end + RELEASE_FRAMES < lp.max_frames {
                end + RELEASE_FRAMES
            } else {
                lp.max_frames as int
            }
        }),
    decreases lp.max_frames - lp.frame_idx,
{
    if lp.frame_idx < lp.max_frames {
        let end = !lp.blocked() && ends(lp.frame_idx as int);
        if end {
            reveal_with_fuel(frames_made, 4);
        } else {
            held_end_releases(lp.after_token(false).after_frame(), ends);
        }
    }
}

/// A prompt with a reference of at most 2000 frames never outruns the cache:
/// the prefill and every frame have a position inside it, and the cache never
/// outgrows the rotary table.
pub proof fn positions_stay_inside_the_cache(
    language: Language,
    frames: Seq<Seq<u32>>,
    ref_text: Seq<u32>,
    text: Seq<u32>,
    max_frames: int,
    attn_boost: bool,
)
    requires
        text.len() > 0,
        0 <= max_frames,
        frames.len() <= 2000,
    ensures
        ({
            let p = plan_of(language, frames, ref_text, text, max_frames, attn_boost);
            &&& 0 < p.header_len <= p.offset
            &&& 0 <= p.max_frames <= max_frames
            &&& p.offset + p.max_frames <= p.kv_max <= MAX_POSITIONS
            &&& p.trailing.len() > 0
            &&& p.boost_boundary <= p.offset
        }),
{
}

/// Text and codes of the reference line up: as many text rows and pads as there
/// are code positions, and the text over the codes followed by the text left
/// for the frames is the whole text, unless it is shorter than the codes.
pub proof fn reference_text_lines_up(frames: Seq<Seq<u32>>, ref_text: Seq<u32>, text: Seq<u32>)
    requires
        frames.len() > 0,
        text.len() > 0,
    ensures
        ({
            let all = whole_text(ref_text, text);
            let icl = icl_of(frames, all);
            let trailing = trailing_of(frames, ref_text, text);
            &&& 0 <= icl.head <= all.len()
            &&& icl.head + icl.pads == frames.len() + 1
            &&& icl.semantic.len() == frames.len()
            &&& all.len() > frames.len() + 1 ==> icl.text.take(icl.head) + trailing == all
            &&& all.len() <= frames.len() + 1 ==> icl.text.take(icl.head) == all && trailing
                == seq![TTS_PAD]
        }),
{
    let all = whole_text(ref_text, text);
    let icl = icl_of(frames, all);
    if all.len() > frames.len() + 1 {
        assert(icl.text.take(icl.head) + trailing_of(frames, ref_text, text) =~= all);
    } else {
        assert(icl.text.take(icl.head) =~= all);
    }
}

/// The reference in context holds every code of every reference frame in its
/// place: the first code of each frame as its semantic one, the fifteen others
/// group by group.
pub proof fn reference_codes_stand_in_context(frames: Seq<Seq<u32>>, text: Seq<u32>)
    ensures
        ({
            let icl = icl_of(frames, text);
            &&& icl.semantic.len() == frames.len()
            &&& icl.groups.len() == 15
            &&& forall|i: int| 0 <= i < frames.len() ==> #[trigger] icl.semantic[i] == frames[i][0]
            &&& forall|g: int| 0 <= g < 15 ==> (#[trigger] icl.groups[g]).len() == frames.len()
            &&& forall|g: int, i: int|
                0 <= g < 15 && 0 <= i < frames.len() ==> #[trigger] icl.groups[g][i] == frames[i][g
                    + 1]
        }),
{
}

/// The frames of sixteen codes that a reference consists of can be taken from
/// its plan again: no two references have the same plan.
pub proof fn references_are_told_apart(
    first: Seq<Seq<u32>>,
    second: Seq<Seq<u32>>,
    text: Seq<u32>,
    other: Seq<u32>,
)
    requires
        forall|i: int| 0 <= i < first.len() ==> (#[trigger] first[i]).len() == 16,
        forall|i: int| 0 <= i < second.len() ==> (#[trigger] second[i]).len() == 16,
        icl_of(first, text) == icl_of(second, other),
    ensures
        first == second,
        text == other,
{
    reference_codes_stand_in_context(first, text);
    reference_codes_stand_in_context(second, other);
    let (p, q) = (icl_of(first, text), icl_of(second, other));
    assert forall|i: int| 0 <= i < first.len() implies first[i] == #[trigger] second[i] by {
        assert forall|g: int| 0 <= g < 16 implies first[i][g] == #[trigger] second[i][g] by {
            if g == 0 {
                assert(p.semantic[i] == q.semantic[i]);
            } else {
                assert(p.groups[g - 1][i] == q.groups[g - 1][i]);
            }
        }
        assert(first[i] =~= second[i]);
    }
    assert(first =~= second);
}

/// The smallest cache of 448, 1024 and 2048 positions that has room for the
/// reference, 24 positions and the frames that were asked for is taken, or the
/// largest; of the frames as many may be made as it leaves room for with eight
/// positions to spare.
pub proof fn caches_are_the_smallest_that_fit(ref_frames: int, max_frames: int, size: int)
    requires
        size == 448 || size == 1024 || size == 2048,
        0 <= ref_frames,
        0 <= max_frames,
    ensures
        ({
            let taken = cache_size(ref_frames, max_frames);
            let limit = frame_limit(ref_frames, max_frames);
            let room = taken - 24 - 8 - ref_frames;
            &&& taken == 448 || taken == 1024 || taken == 2048
            &&& ref_frames + 24 + max_frames <= size ==> taken <= size
            &&& taken < 2048 ==> ref_frames + 24 + max_frames <= taken
            &&& limit <= max_frames
            &&& room >= 0 ==> limit <= room && (limit == max_frames || limit == room)
            &&& room < 0 ==> limit == 0
        }),
{
}

/// How a prefill is laid out. The role stands first; the codec prefix of the
/// language, the speaker, a pad and the begin token follow, with pads and the
/// begin of text under all of them but the last.
pub proof fn prefills_are_laid_out(
    language: Language,
    frames: Seq<Seq<u32>>,
    ref_text: Seq<u32>,
    text: Seq<u32>,
    max_frames: int,
    attn_boost: bool,
)
    requires
        text.len() > 0,
    ensures
        ({
            let p = plan_of(language, frames, ref_text, text, max_frames, attn_boost);
            let prefix = prefix_of(language);
            &&& p.role == seq![151644u32, 77091u32, 198u32]
            &&& p.codec_prefix == prefix
            &&& p.codec_suffix == seq![2148u32, 2149u32]
            &&& p.text_under.len() == prefix.len() + 2
            &&& p.text_under.last() == 151672
            &&& forall|i: int| 0 <= i <= prefix.len() ==> #[trigger] p.text_under[i] == 151671
            &&& p.kv_max == cache_size(frames.len() as int, max_frames)
            &&& p.max_frames == frame_limit(frames.len() as int, max_frames)
            &&& frames.len() == 0 ==> {
                &&& p.icl is None
                &&& p.first_text == Some(text[0])
                &&& seq![text[0]] + p.trailing == text.push(151673)
                &&& p.header_len == 3 + prefix.len() + 3
                &&& p.offset == p.header_len
                &&& p.boost_boundary == 0
            }
            &&& frames.len() > 0 ==> {
                &&& p.icl matches Some(icl)
                &&& p.first_text is None
                &&& icl.text == (ref_text + text).push(151673)
                &&& icl.head + icl.pads == frames.len() + 1
                &&& icl.pads == 0 || icl.head == icl.text.len()
                &&& icl.head < icl.text.len() ==> icl.text.take(icl.head) + p.trailing == icl.text
                &&& icl.head == icl.text.len() ==> p.trailing == seq![151671u32]
                &&& p.header_len == 3 + prefix.len() + 2
                &&& p.offset == p.header_len + frames.len() + 1
                &&& p.boost_boundary == if attn_boost && p.trailing.len() > 1 {
                    p.offset
                } else {
                    0
                }
            }
        }),
{
    let p = plan_of(language, frames, ref_text, text, max_frames, attn_boost);
    if frames.len() == 0 {
        assert(seq![text[0]] + p.trailing =~= text.push(151673));
    } else {
        let icl = p.icl->0;
        if icl.head < icl.text.len() {
            assert(icl.text.take(icl.head) + p.trailing =~= icl.text);
        }
    }
}

/// Given frames are all fed, or as many as 2048 positions hold behind the
/// reference and 32 others; the prefill in front of them is that of an utterance,
/// without a boost, and with the smallest cache that has room for all of them and
/// for at least one; and the first empty one among those that are fed is what is
/// refused.
pub proof fn given_frames_are_fed_in_order(
    language: Language,
    reference: Seq<Seq<u32>>,
    ref_text: Seq<u32>,
    text: Seq<u32>,
    frames: Seq<Seq<u32>>,
    i: int,
)
    requires
        0 <= i <= usize::MAX,
        reference.len() + i + 64 <= usize::MAX,
    ensures
        ({
            let (n, r) = (frames.len() as int, reference.len() as int);
            let fed = fed_frames(n, r);
            let p = forced_plan(language, reference, ref_text, text, n);
            let asked = if n == 0 {
                1
            } else {
                n
            };
            &&& 0 <= fed <= n
            &&& r + 32 + n <= 2048 ==> fed == n
            &&& r + 32 + n > 2048 && r + 32 <= 2048 ==> r + 32 + fed == 2048
            &&& r + 32 > 2048 ==> fed == 0
            &&& p.boost_boundary == 0
            &&& PlanView { kv_max: 0, max_frames: 0, ..p } == (PlanView {
                kv_max: 0,
                max_frames: 0,
                ..plan_of(language, reference, ref_text, text, 1, false)
            })
            &&& p.max_frames >= fed
            &&& p.kv_max == 448 || p.kv_max == 1024 || p.kv_max == 2048
            &&& p.kv_max < 2048 ==> r + 32 + asked <= p.kv_max
            &&& p.kv_max > 448 ==> r + 32 + asked > 448
            &&& p.kv_max > 1024 ==> r + 32 + asked > 1024
            &&& p.max_frames <= asked + 8
            &&& forced_step(p, i).position == p.offset + i
            &&& !forced_step(p, i).last
            &&& match forced_step(p, i).text {
                TextRow::Trailing(k) => k == i < p.trailing.len(),
                TextRow::Pad => i >= p.trailing.len(),
            }
            &&& i < fed && frames[i].len() == 0 && (forall|k: int|
                0 <= k < i ==> (#[trigger] frames[k]).len() > 0) ==> forcing_error(frames, r)
                == Some(ErrorView::InvalidFrames("frame "@ + digits(i as nat) + " is empty"@))
            &&& (forall|k: int| 0 <= k < fed ==> (#[trigger] frames[k]).len() > 0)
                ==> forcing_error(frames, r) is None
        }),
{
    let (n, r) = (frames.len() as int, reference.len() as int);
    let fed = frames.take(fed_frames(n, r));
    if i < fed.len() && frames[i].len() == 0 && (forall|k: int|
        0 <= k < i ==> (#[trigger] frames[k]).len() > 0) {
        assert forall|k: int| 0 <= k < i implies (#[trigger] fed[k]).len() > 0 by {
            assert(fed[k] == frames[k]);
        }
        lemma_first_empty(fed, 0, i);
    }
    if forall|k: int| 0 <= k < fed.len() ==> (#[trigger] frames[k]).len() > 0 {
        assert forall|k: int| 0 <= k < fed.len() implies (#[trigger] fed[k]).len() > 0 by {
            assert(fed[k] == frames[k]);
        }
        lemma_first_empty(fed, 0, fed.len() as int);
    }
}

proof fn lemma_first_empty(frames: Seq<Seq<u32>>, from: int, to: int)
    requires
        0 <= from <= to,
        forall|k: int| from <= k < to ==> (#[trigger] frames[k]).len() > 0,
        to <= frames.len(),
    ensures
        first_empty(frames, from) == first_empty(frames, to),
    decreases to - from,
{
    if from < to {
        lemma_first_empty(frames, from + 1, to);
    }
}

/// The loop starts behind the prefill with the frames it may make; each frame
/// moves it by one frame and one position and uses up one frame of a release.
/// The end is masked while text is left, for three frames more, and during a
/// release; coming up while it is held back it starts a release of three.
pub proof fn loops_move_frame_by_frame(plan: PlanView, lp: FrameLoop, hold_eos: bool)
    requires
        0 <= plan.offset <= usize::MAX,
        0 <= plan.max_frames <= usize::MAX,
        plan.trailing.len() <= usize::MAX,
        lp.frame_idx < usize::MAX,
        lp.offset < usize::MAX,
    ensures
        ({
            let s = FrameLoop::start_of(plan, hold_eos);
            &&& s.hold_eos == hold_eos
            &&& s.trailing_len == plan.trailing.len()
            &&& s.max_frames == plan.max_frames
            &&& s.frame_idx == 0
            &&& s.releasing == 0
            &&& s.offset == plan.offset
        }),
        ({
            let s = lp.after_frame();
            &&& s.frame_idx == lp.frame_idx + 1
            &&& s.offset == lp.offset + 1
            &&& lp.releasing > 0 ==> s.releasing == lp.releasing - 1
            &&& lp.releasing == 0 ==> s.releasing == 0
            &&& (s.hold_eos, s.trailing_len, s.max_frames) == (
                lp.hold_eos,
                lp.trailing_len,
                lp.max_frames,
            )
        }),
        lp.after_token(false) == lp,
        !lp.hold_eos ==> lp.after_token(true) == lp && !lp.blocked(),
        lp.hold_eos ==> lp.after_token(true) == (FrameLoop { releasing: 3, ..lp }),
        lp.hold_eos ==> (lp.blocked() <==> lp.frame_idx < lp.trailing_len + 3 || lp.releasing != 0),
{
}

/// Frames with a code in each of them can be fed.
pub proof fn whole_frames_can_be_fed(frames: Seq<Seq<u32>>, ref_frames: int)
    requires
        forall|k: int| 0 <= k < frames.len() ==> (#[trigger] frames[k]).len() > 0,
        0 <= ref_frames,
    ensures
        forcing_error(frames, ref_frames) is None,
{
    let fed = frames.take(fed_frames(frames.len() as int, ref_frames));
    assert forall|k: int| 0 <= k < fed.len() implies (#[trigger] fed[k]).len() > 0 by {
        assert(fed[k] == frames[k]);
    }
    lemma_first_empty(fed, 0, fed.len() as int);
}

/// A plan is seen as it is, field by field.
pub proof fn plans_are_seen_as_they_are(p: PrefillPlan, i: int)
    ensures
        p@.kv_max == p.kv_max,
        p@.max_frames == p.max_frames,
        p@.role == p.role@,
        p@.codec_prefix == p.codec_prefix@,
        p@.codec_suffix == p.codec_suffix@,
        p@.text_under == p.text_under@,
        p@.first_text == p.first_text,
        p@.trailing == p.trailing@,
        p@.header_len == p.header_len,
        p@.offset == p.offset,
        p@.boost_boundary == p.boost_boundary,
        p.icl is None <==> p@.icl is None,
        p.icl matches Some(c) ==> (p@.icl matches Some(v) && {
            &&& v.semantic == c.semantic@
            &&& v.text == c.text@
            &&& v.head == c.head
            &&& v.pads == c.pads
            &&& v.groups.len() == c.groups.len()
            &&& 0 <= i < c.groups.len() ==> v.groups[i] == c.groups[i]@
        }),
{
}

/// A plan for given frames is the prefill and one step for each of them, in
/// order, all inside the cache.
pub proof fn forced_plans_hold_a_step_for_each_frame(f: ForcedPlan, plan: PlanView, n: int, i: int)
    requires
        f.feeds(plan, n),
        0 <= i < n,
        0 <= plan.offset,
        plan.offset + n <= usize::MAX,
    ensures
        f.plan@ == plan,
        f.steps.len() == n,
        f.steps[i].position == plan.offset + i,
        f.steps[i].position < plan.kv_max,
        plan.kv_max <= 2048,
        match f.steps[i].text {
            TextRow::Trailing(k) => k == i < plan.trailing.len(),
            TextRow::Pad => i >= plan.trailing.len(),
        },
{
    assert(f.steps[i] == forced_step(plan, i));
}

} // verus!
