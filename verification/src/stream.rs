//! Streaming: when audio is decoded while frames are still being made, which
//! part of it is handed on, and when a run that only pads is cut short.

use crate::ieee::Single;
use crate::pipeline::{frames_made, frames_stay_within_the_limit, FrameLoop};
use crate::postproc::{least, loud, speech_level, window, SPEECH_LEVEL};
use vstd::prelude::*;

verus! {

/// Frames between two decodes.
pub const DECODE_EVERY_FRAMES: usize = 24;

/// Frames held back for the final block so that its end-fade owns the end of
/// the utterance.
pub const TAIL_HOLD_FRAMES: usize = 8;

/// The level below which a window is silent, 0.006, as a bit pattern.
pub const SILENCE_LEVEL: u32 = 0x3bc4_9ba6;

/// Samples in a window that is tested for silence: 20 ms at 24 kHz.
pub const SILENCE_WIN: usize = 480;

/// Samples of trailing silence after which a run is cut: 700 ms at 24 kHz.
pub const SILENCE_STOP: usize = 16_800;

/// Samples of speech a continuation waits for before its first chunk: 120 ms
/// at 24 kHz. Its predecessor's tail is still queued.
pub const CONTINUATION_LEAD: usize = 2_880;

/// Samples over which the end of a stream fades: 40 ms at 24 kHz.
pub const STREAM_FADE: usize = 960;

/// Samples over which the end of a one-shot utterance fades: 10 ms at 24 kHz.
pub const SPEAK_FADE: usize = 240;

/// Decode the first `generated` frames behind the reference, and keep the
/// samples from frame `keep_from` on, counted with the reference.
#[derive(Clone, Copy, PartialEq, Eq, Debug, Structural)]
pub struct DecodeRequest {
    pub generated: usize,
    pub keep_from: usize,
}

/// What a new frame leads to.
#[derive(Clone, Copy, PartialEq, Eq, Debug, Structural)]
pub enum FrameAction {
    /// Nothing but the next frame.
    Wait,
    /// A decode from the start, to see whether the lead is there.
    Onset(DecodeRequest),
    /// A decode of what is new.
    Tail(DecodeRequest),
}

/// The last decode of a stream.
#[derive(Clone, Copy, PartialEq, Eq, Debug, Structural)]
pub enum FinalAction {
    /// There is nothing to hand on.
    Nothing,
    /// Everything, less what comes before the first speech.
    Whole(DecodeRequest),
    /// What was not handed on before.
    Rest(DecodeRequest),
}

/// Where a stream stands.
#[derive(Clone, Copy, PartialEq, Eq, Debug, Structural)]
pub struct StreamState {
    /// The first chunk waits for a lead that covers the whole utterance, not
    /// just for the short one of a continuation.
    pub full_lead: bool,
    /// The end is held back, which makes a run overshoot.
    pub hold_eos: bool,
    /// Reference frames that are decoded in front.
    pub ref_len: usize,
    /// Frames after which no text is left to be spoken.
    pub text_frames: usize,
    /// Frames handed on.
    pub emitted_frame: usize,
    /// The first chunk was handed on.
    pub onset_done: bool,
    /// Samples of silence at the end of what was handed on.
    pub silent_run: usize,
}

/// Frames that may be handed on once there are `n`.
pub open spec fn ready(n: int) -> int {
    if n < TAIL_HOLD_FRAMES {
        0
    } else {
        n - TAIL_HOLD_FRAMES
    }
}

/// The samples of the first chunk: of `full_len` that `n` frames were decoded
/// to, those from `onset` up to the end of the last frame that may be handed
/// on. Nothing where there are none.
pub open spec fn onset_range(n: int, full_len: int, onset: int) -> Option<(int, int)> {
    let per_frame = if full_len / n == 0 {
        1
    } else {
        full_len / n
    };
    let to = least(ready(n) * per_frame, full_len);
    if to > onset {
        Some((onset, to))
    } else {
        None
    }
}

impl StreamState {
    /// A stream before its first frame.
    pub fn start(full_lead: bool, hold_eos: bool, ref_len: usize, text_frames: usize) -> (r: Self)
        ensures
            r == (StreamState {
                full_lead,
                hold_eos,
                ref_len,
                text_frames,
                emitted_frame: 0,
                onset_done: false,
                silent_run: 0,
            }),
    {
        StreamState {
            full_lead,
            hold_eos,
            ref_len,
            text_frames,
            emitted_frame: 0,
            onset_done: false,
            silent_run: 0,
        }
    }

    /// What to do once there are `n` frames.
    pub open spec fn action(self, n: int) -> FrameAction {
        if ready(n) <= self.emitted_frame {
            FrameAction::Wait
        } else if !self.onset_done {
            FrameAction::Onset(
                DecodeRequest { generated: n as usize, keep_from: self.ref_len },
            )
        } else if ready(n) - self.emitted_frame < DECODE_EVERY_FRAMES {
            FrameAction::Wait
        } else {
            FrameAction::Tail(
                DecodeRequest {
                    generated: ready(n) as usize,
                    keep_from: (self.ref_len + self.emitted_frame) as usize,
                },
            )
        }
    }

    /// Whether enough speech is there for the first chunk. For a continuation
    /// that is decided here; the full lead depends on how fast frames are made
    /// and is measured by the caller.
    pub open spec fn lead_reached(self, speech: int, full_lead_reached: bool) -> bool {
        if self.full_lead {
            full_lead_reached
        } else {
            speech >= CONTINUATION_LEAD
        }
    }

    /// The stream once frames up to `to` were handed on.
    pub open spec fn handed_on(self, to: int) -> StreamState {
        StreamState { onset_done: true, emitted_frame: to as usize, ..self }
    }

    /// What to do once there are `n` frames.
    pub fn on_frame(&self, n: usize) -> (r: FrameAction)
        requires
            self.ref_len + n <= usize::MAX,
        ensures
            r == self.action(n as int),
    {
        let emit_n: usize = if n < TAIL_HOLD_FRAMES {
            0
        } else {
            n - TAIL_HOLD_FRAMES
        };
        if emit_n <= self.emitted_frame {
            FrameAction::Wait
        } else if !self.onset_done {
            FrameAction::Onset(DecodeRequest { generated: n, keep_from: self.ref_len })
        } else if emit_n - self.emitted_frame < DECODE_EVERY_FRAMES {
            FrameAction::Wait
        } else {
            FrameAction::Tail(
                DecodeRequest { generated: emit_n, keep_from: self.ref_len + self.emitted_frame },
            )
        }
    }

    /// Takes the onset's decode of `n` frames into `full_len` samples whose
    /// speech starts at `onset`. Gives the samples to hand on, or nothing
    /// where the lead is not there yet or nothing of it is ready.
    pub fn onset_decoded(
        &mut self,
        n: usize,
        full_len: usize,
        onset: usize,
        full_lead_reached: bool,
    ) -> (r: Option<(usize, usize)>)
        requires
            n > TAIL_HOLD_FRAMES,
        ensures
            ({
                let speech = if full_len < onset {
                    0
                } else {
                    full_len - onset
                };
                let reached = old(self).lead_reached(speech, full_lead_reached);
                &&& *final(self) == if reached {
                    old(self).handed_on(ready(n as int))
                } else {
                    *old(self)
                }
                &&& match r {
                    Some((a, b)) => reached && onset_range(
                        n as int,
                        full_len as int,
                        onset as int,
                    ) == Some((a as int, b as int)),
                    None => reached ==> onset_range(
                        n as int,
                        full_len as int,
                        onset as int,
                    ) is None,
                }
            }),
            r matches Some((a, b)) ==> {
                &&& a == onset
                &&& onset < b <= full_len
                &&& full_len >= n ==> b == (n - 8) * (full_len as int / n as int)
                &&& full_len < n ==> b == least(n - 8, full_len as int)
            },
            r is None && (if old(self).full_lead {
                full_lead_reached
            } else {
                full_len - onset >= 2_880
            }) ==> onset >= full_len || onset >= n - 8 && onset >= (n - 8) * (full_len as int
                / n as int),
    {
        let speech: usize = if full_len < onset {
            0
        } else {
            full_len - onset
        };
        let reached: bool = if self.full_lead {
            full_lead_reached
        } else {
            speech >= CONTINUATION_LEAD
        };
        if !reached {
            return None;
        }
        let emit_n: usize = n - TAIL_HOLD_FRAMES;
        self.onset_done = true;
        self.emitted_frame = emit_n;
        let mut per_frame: usize = full_len / n;
        proof {
            lemma_share(n as int, full_len as int);
        }
        let to: usize = if per_frame == 0 {
            if emit_n < full_len {
                emit_n
            } else {
                full_len
            }
        } else {
            assert(emit_n * per_frame <= n * per_frame <= full_len) by (nonlinear_arith)
                requires
                    emit_n <= n,
                    per_frame == full_len / n,
                    n > 0,
            ;
            emit_n * per_frame
        };
        if to > onset {
            Some((onset, to))
        } else {
            None
        }
    }

    /// The stream once the frames that are ready of `n` were handed on, and the
    /// silence at their end counted.
    pub open spec fn after_tail(self, n: int, silent_run: usize) -> StreamState {
        StreamState { silent_run, ..self.handed_on(ready(n)) }
    }

    /// A run past its text, with a long silent tail, only pads.
    pub open spec fn padding(self, n: int) -> bool {
        self.hold_eos && n > self.text_frames + TAIL_HOLD_FRAMES && self.silent_run > SILENCE_STOP
    }

    /// Takes a tail's decode into `len` samples of which `silence` at the end
    /// are silent. `n` is how many frames there are. Gives whether to stop
    /// making frames: the text is spent and what was handed on ends in 700 ms
    /// of silence. That takes a held end, which is what makes a run overshoot;
    /// without it the model's own end stops the loop.
    pub fn tail_decoded(&mut self, n: usize, len: usize, silence: usize) -> (r: bool)
        requires
            n >= TAIL_HOLD_FRAMES,
            silence <= len,
            old(self).onset_done,
            old(self).silent_run + len <= usize::MAX,
        ensures
            *final(self) == old(self).after_tail(
                n as int,
                if len == 0 {
                    old(self).silent_run
                } else if silence == len {
                    (old(self).silent_run + len) as usize
                } else {
                    silence
                },
            ),
            r == final(self).padding(n as int),
    {
        if len > 0 {
            self.silent_run = if silence == len {
                self.silent_run + silence
            } else {
                silence
            };
        }
        self.emitted_frame = n - TAIL_HOLD_FRAMES;
        self.hold_eos && n - TAIL_HOLD_FRAMES > self.text_frames && self.silent_run > SILENCE_STOP
    }

    /// The last decode, once all `n` frames are there.
    pub open spec fn last_action(self, n: int) -> FinalAction {
        if n == 0 {
            FinalAction::Nothing
        } else if self.onset_done {
            FinalAction::Rest(
                DecodeRequest {
                    generated: n as usize,
                    keep_from: (self.ref_len + self.emitted_frame) as usize,
                },
            )
        } else {
            FinalAction::Whole(DecodeRequest { generated: n as usize, keep_from: self.ref_len })
        }
    }

    /// The last decode, once all `n` frames are there.
    pub fn finish(&self, n: usize) -> (r: FinalAction)
        requires
            self.emitted_frame <= n,
            self.ref_len + n <= usize::MAX,
        ensures
            r == self.last_action(n as int),
    {
        if n == 0 {
            FinalAction::Nothing
        } else if self.onset_done {
            FinalAction::Rest(
                DecodeRequest { generated: n, keep_from: self.ref_len + self.emitted_frame },
            )
        } else {
            FinalAction::Whole(DecodeRequest { generated: n, keep_from: self.ref_len })
        }
    }
}

/// The frames that each chunk of a stream stands for, in order: once there are
/// `n` of `total` frames, where `lead(k)` says whether the lead is there after
/// `k` frames.
pub open spec fn chunks_from(st: StreamState, n: int, total: int, lead: spec_fn(int) -> bool) -> Seq<
    (int, int),
>
    decreases total - n,
{
    if n >= total {
        match st.last_action(total) {
            FinalAction::Nothing => Seq::empty(),
            FinalAction::Whole(_) => seq![(0int, total)],
            FinalAction::Rest(_) => seq![(st.emitted_frame as int, total)],
        }
    } else {
        let k = n + 1;
        match st.action(k) {
            FrameAction::Wait => chunks_from(st, k, total, lead),
            FrameAction::Onset(_) => if lead(k) {
                seq![(0int, ready(k))] + chunks_from(st.handed_on(ready(k)), k, total, lead)
            } else {
                chunks_from(st, k, total, lead)
            },
            FrameAction::Tail(_) => seq![(st.emitted_frame as int, ready(k))] + chunks_from(
                st.handed_on(ready(k)),
                k,
                total,
                lead,
            ),
        }
    }
}

/// Each range starts where the one before it ended; together they reach from
/// `from` to `to`.
pub open spec fn tiles(ranges: Seq<(int, int)>, from: int, to: int) -> bool
    decreases ranges.len(),
{
    if ranges.len() == 0 {
        from == to
    } else {
        ranges[0].0 == from && ranges[0].0 < ranges[0].1 && tiles(
            ranges.drop_first(),
            ranges[0].1,
            to,
        )
    }
}

/// The chunks of a stream stand for every frame once, in order, whatever the
/// lead does: no frame is lost between two chunks or handed on twice.
pub proof fn chunks_tile_the_utterance(
    st: StreamState,
    n: int,
    total: int,
    lead: spec_fn(int) -> bool,
)
    requires
        0 <= n <= total,
        total <= usize::MAX,
        0 < total,
        st.onset_done ==> st.emitted_frame + TAIL_HOLD_FRAMES <= n,
        !st.onset_done ==> st.emitted_frame == 0,
    ensures
        tiles(chunks_from(st, n, total, lead), st.emitted_frame as int, total),
    decreases total - n,
{
    let chunks = chunks_from(st, n, total, lead);
    if n >= total {
        assert(chunks.drop_first() =~= Seq::empty());
        assert(tiles(chunks.drop_first(), total, total));
    } else {
        let k = n + 1;
        match st.action(k) {
            FrameAction::Wait => {
                chunks_tile_the_utterance(st, k, total, lead);
            },
            FrameAction::Onset(_) => {
                if lead(k) {
                    let next = st.handed_on(ready(k));
                    chunks_tile_the_utterance(next, k, total, lead);
                    assert(chunks.drop_first() =~= chunks_from(next, k, total, lead));
                } else {
                    chunks_tile_the_utterance(st, k, total, lead);
                }
            },
            FrameAction::Tail(_) => {
                let next = st.handed_on(ready(k));
                chunks_tile_the_utterance(next, k, total, lead);
                assert(chunks.drop_first() =~= chunks_from(next, k, total, lead));
            },
        }
    }
}

/// The onset's chunk ends on a frame boundary: where each of `n` frames decodes
/// to `per_frame` samples, it ends with the samples of the last frame that is
/// ready, which is where the next decode starts.
pub proof fn onset_chunk_ends_on_a_frame(n: int, per_frame: int)
    requires
        n > TAIL_HOLD_FRAMES,
        per_frame > 0,
    ensures
        (n * per_frame) / n == per_frame,
        least(ready(n) * per_frame, n * per_frame) == ready(n) * per_frame,
{
    vstd::arithmetic::div_mod::lemma_div_multiples_vanish(per_frame, n);
    assert(n * per_frame == per_frame * n && ready(n) * per_frame <= n * per_frame)
        by (nonlinear_arith)
        requires
            ready(n) <= n,
            per_frame > 0,
    ;
}

/// How silent a stream is plays no part in how it is cut into chunks.
pub proof fn silence_does_not_move_chunks(
    st: StreamState,
    silent_run: usize,
    n: int,
    total: int,
    lead: spec_fn(int) -> bool,
)
    ensures
        chunks_from(StreamState { silent_run, ..st }, n, total, lead) == chunks_from(
            st,
            n,
            total,
            lead,
        ),
    decreases total - n,
{
    if n < total {
        let k = n + 1;
        silence_does_not_move_chunks(st, silent_run, k, total, lead);
        silence_does_not_move_chunks(st.handed_on(ready(k)), silent_run, k, total, lead);
    }
}

/// The stream behind a new frame, the `k`-th, and whether it stops the run.
/// `lead` says whether the lead is there, `silent_run` how silent the end of
/// what was handed on is, where that is asked for.
pub open spec fn after_frame(st: StreamState, k: int, lead: bool, silent_run: usize) -> (
    StreamState,
    bool,
) {
    match st.action(k) {
        FrameAction::Wait => (st, false),
        FrameAction::Onset(_) => (
            if lead {
                st.handed_on(ready(k))
            } else {
                st
            },
            false,
        ),
        FrameAction::Tail(_) => {
            let next = st.after_tail(k, silent_run);
            (next, next.padding(k))
        },
    }
}

/// How many frames come out of the generation loop from `lp` on where a stream
/// takes them one by one and may stop it. `ends(i)` says whether the draw for
/// frame `i` would come out as the end, `lead(k)` and `silent(k)` what the
/// stream finds once there are `k` frames.
pub open spec fn streamed_frames(
    lp: FrameLoop,
    st: StreamState,
    ends: spec_fn(int) -> bool,
    lead: spec_fn(int) -> bool,
    silent: spec_fn(int) -> usize,
) -> int
    decreases lp.max_frames - lp.frame_idx,
{
    if lp.frame_idx >= lp.max_frames {
        0
    } else {
        let end = !lp.blocked() && ends(lp.frame_idx as int);
        if end && !lp.hold_eos {
            0
        } else {
            let settled = lp.after_token(end);
            let k = lp.frame_idx + 1;
            let (next, stop) = after_frame(st, k, lead(k), silent(k));
            if stop || settled.releasing == 1 {
                1
            } else {
                1 + streamed_frames(settled.after_frame(), next, ends, lead, silent)
            }
        }
    }
}

/// A stream stops a run early only where the end is held back: without that as
/// many frames come out as without a stream, and never more, whatever its lead
/// and its silence.
pub proof fn only_held_runs_are_cut(
    lp: FrameLoop,
    st: StreamState,
    ends: spec_fn(int) -> bool,
    lead: spec_fn(int) -> bool,
    silent: spec_fn(int) -> usize,
)
    ensures
        0 <= streamed_frames(lp, st, ends, lead, silent) <= frames_made(lp, ends),
        !st.hold_eos ==> streamed_frames(lp, st, ends, lead, silent) == frames_made(lp, ends),
    decreases lp.max_frames - lp.frame_idx,
{
    if lp.frame_idx < lp.max_frames {
        let end = !lp.blocked() && ends(lp.frame_idx as int);
        let settled = lp.after_token(end);
        let k = lp.frame_idx + 1;
        let (next, stop) = after_frame(st, k, lead(k), silent(k));
        only_held_runs_are_cut(settled.after_frame(), next, ends, lead, silent);
        frames_stay_within_the_limit(settled.after_frame(), ends);
    }
}

/// The first window of the silence at the end: all from it on are quieter than
/// 0.006.
pub open spec fn silence_start(levels: Seq<Single>) -> int
    decreases levels.len(),
{
    if levels.len() > 0 && levels.last().less(Single { bits: SILENCE_LEVEL }) {
        silence_start(levels.drop_last())
    } else {
        levels.len() as int
    }
}

/// Samples in a window that is tested for silence; shorter only where there
/// are fewer samples.
pub open spec fn silence_window(len: int) -> int {
    if len == 0 {
        1
    } else {
        least(SILENCE_WIN as int, len)
    }
}

/// Windows of `win` samples in `len` samples, the last one perhaps shorter.
pub open spec fn windows_over(len: int, win: int) -> int {
    (len + win - 1) / win
}

/// How many samples at the end of a chunk are silent. The chunk's trailing
/// silence counts, not whether all of it is silent: it holds about two
/// seconds, so one with speech and then silence would otherwise hold up the
/// cut by a whole chunk.
///
/// `levels` holds the level of each window of [`SILENCE_WIN`] samples from the
/// start, the last one perhaps shorter.
pub fn silent_tail(levels: &[Single], len: usize) -> (r: usize)
    requires
        levels.len() == windows_over(len as int, silence_window(len as int)),
    ensures
        r == if silence_start(levels@) == levels.len() {
            0
        } else {
            len - silence_start(levels@) * silence_window(len as int)
        },
        r <= len,
{
    let win: usize = if len == 0 {
        1
    } else if len < SILENCE_WIN {
        len
    } else {
        SILENCE_WIN
    };
    let limit: Single = Single { bits: SILENCE_LEVEL };
    let mut k: usize = levels.len();
    assert(levels@.take(k as int) =~= levels@);
    while k > 0 && levels[k - 1].lt(limit)
        invariant
            k <= levels.len(),
            limit == (Single { bits: SILENCE_LEVEL }),
            silence_start(levels@) == silence_start(levels@.take(k as int)),
        decreases k,
    {
        assert(levels@.take(k as int).drop_last() =~= levels@.take(k - 1));
        k = k - 1;
    }
    assert(silence_start(levels@) == k) by {
        assert(k > 0 ==> levels@.take(k as int).last() == levels@[k - 1]);
    }
    if k == levels.len() {
        0
    } else {
        assert(k * win <= len && 0 <= k * win) by (nonlinear_arith)
            requires
                k + 1 <= levels.len(),
                levels.len() == (len + win - 1) / win as int,
                win >= 1,
        ;
        len - k * win
    }
}

/// The samples that the end of a trimmed stream fades over: 40 ms up to the end
/// of the last window over 0.005, or of the chunk where no window is.
pub open spec fn fade_of(levels: Seq<Single>, len: int) -> (int, int) {
    let end = match crate::postproc::last_true(loud(levels, speech_level())) {
        Some(w) => (w + 1) * window(24_000),
        None => len,
    };
    (end - least(STREAM_FADE as int, end), end)
}

/// The range of samples to fade at the end of a stream, so that the trim's hard
/// stop reads as a release; empty where nothing was trimmed. `levels` holds the
/// level of each full 20 ms window.
pub fn stream_fade(trimmed: bool, levels: &[Single], len: usize) -> (r: (usize, usize))
    requires
        levels.len() == crate::postproc::window_count(len as nat, 24_000),
    ensures
        trimmed ==> (r.0 as int, r.1 as int) == fade_of(levels@, len as int),
        !trimmed ==> r == (len, len),
        r.0 <= r.1 <= len,
{
    if !trimmed {
        return (len, len);
    }
    let end: usize = match crate::postproc::last_loud(levels, Single { bits: SPEECH_LEVEL }) {
        Some(w) => (w + 1) * 480,
        None => len,
    };
    let fade: usize = if end < STREAM_FADE {
        end
    } else {
        STREAM_FADE
    };
    (end - fade, end)
}

/// The range of samples to fade at the end of a one-shot utterance: 10 ms, or
/// all of it where it is shorter; empty where nothing was trimmed. The trim
/// cuts mid-waveform, and without the ramp that clicks.
pub fn speak_fade(trimmed: bool, len: usize) -> (r: (usize, usize))
    ensures
        r.1 == len,
        r.0 == if trimmed {
            len - least(SPEAK_FADE as int, len as int)
        } else {
            len as int
        },
{
    if !trimmed {
        return (len, len);
    }
    let fade: usize = if len < SPEAK_FADE {
        len
    } else {
        SPEAK_FADE
    };
    (len - fade, len)
}

/// What `n` frames share of `full_len` samples: at least one each where there
/// are that many, none otherwise.
proof fn lemma_share(n: int, full_len: int)
    requires
        n > 8,
        0 <= full_len,
    ensures
        full_len >= n ==> full_len / n >= 1 && (n - 8) * (full_len / n) >= n - 8,
        full_len < n ==> full_len / n == 0 && (n - 8) * (full_len / n) == 0,
        0 <= (n - 8) * (full_len / n) <= full_len,
{
    let share = full_len / n;
    assert(full_len >= n ==> share >= 1 && (n - 8) * share >= n - 8) by (nonlinear_arith)
        requires
            share == full_len / n,
            n > 8,
    ;
    assert(full_len < n ==> share == 0 && (n - 8) * share == 0) by (nonlinear_arith)
        requires
            share == full_len / n,
            n > 8,
            0 <= full_len,
    ;
    assert(0 <= (n - 8) * share <= full_len) by (nonlinear_arith)
        requires
            share == full_len / n,
            n > 8,
            0 <= full_len,
    ;
}

/// The first chunk starts exactly where the speech does, not before and not
/// behind it, and stops where the last eight frames begin. It is empty only
/// where the speech starts no earlier than that.
pub proof fn first_chunk_starts_at_the_speech(n: int, full_len: int, onset: int)
    requires
        n > 8,
        0 <= full_len,
        0 <= onset,
    ensures
        match onset_range(n, full_len, onset) {
            Some((a, b)) => {
                &&& a == onset
                &&& onset < b <= full_len
                &&& full_len >= n ==> b == (n - 8) * (full_len / n)
                &&& full_len < n ==> b == least(n - 8, full_len)
            },
            None => onset >= full_len || onset >= n - 8 && onset >= (n - 8) * (full_len / n),
        },
        forall|per_frame: int|
            per_frame > 0 && full_len == #[trigger] (n * per_frame) && onset < (n - 8) * per_frame
                ==> onset_range(n, full_len, onset) == Some((onset, (n - 8) * per_frame)),
{
    lemma_share(n, full_len);
    assert forall|per_frame: int|
        per_frame > 0 && full_len == #[trigger] (n * per_frame) && onset < (n - 8)
            * per_frame implies onset_range(n, full_len, onset) == Some(
        (onset, (n - 8) * per_frame),
    ) by {
        onset_chunk_ends_on_a_frame(n, per_frame);
    }
}

/// When a stream decodes and what: the first chunk as soon as a frame is ready
/// behind the eight that are held back, everything from the reference on; then
/// the frames that are ready once 24 of them were not handed on, from the first
/// of those on; otherwise nothing.
pub proof fn decodes_take_what_is_ready(st: StreamState, n: int)
    requires
        0 <= n,
        st.ref_len + n <= usize::MAX,
    ensures
        match st.action(n) {
            FrameAction::Onset(q) => {
                &&& !st.onset_done
                &&& n > st.emitted_frame + 8
                &&& q.generated == n
                &&& q.keep_from == st.ref_len
            },
            FrameAction::Tail(q) => {
                &&& st.onset_done
                &&& n >= st.emitted_frame + 8 + 24
                &&& q.generated == n - 8
                &&& q.keep_from == st.ref_len + st.emitted_frame
            },
            FrameAction::Wait => if st.onset_done {
                n < st.emitted_frame + 8 + 24
            } else {
                n <= st.emitted_frame + 8
            },
        },
        match st.last_action(n) {
            FinalAction::Nothing => n == 0,
            FinalAction::Whole(q) => {
                &&& n > 0
                &&& !st.onset_done
                &&& q.generated == n
                &&& q.keep_from == st.ref_len
            },
            FinalAction::Rest(q) => {
                &&& n > 0
                &&& st.onset_done
                &&& q.generated == n
                &&& st.emitted_frame <= n ==> q.keep_from == st.ref_len + st.emitted_frame
            },
        },
{
}

/// A continuation waits for 120 ms of speech, whatever the caller measured; a
/// full lead is what the caller measured, however much speech there is.
pub proof fn leads_are_waited_for(st: StreamState, speech: int, measured: bool)
    ensures
        st.full_lead ==> st.lead_reached(speech, measured) == measured,
        !st.full_lead ==> (st.lead_reached(speech, measured) <==> speech * 1000 >= 120 * 24_000),
{
}

/// Handing frames on moves the stream to the frame behind them and marks the
/// first chunk as done; a tail also leaves its silence behind. Nothing else
/// changes.
pub proof fn handing_on_moves_the_stream(st: StreamState, to: int, n: int, silence: usize)
    requires
        0 <= to <= usize::MAX,
        8 <= n <= usize::MAX,
    ensures
        st.handed_on(to) == (StreamState {
            full_lead: st.full_lead,
            hold_eos: st.hold_eos,
            ref_len: st.ref_len,
            text_frames: st.text_frames,
            emitted_frame: to as usize,
            onset_done: true,
            silent_run: st.silent_run,
        }),
        st.after_tail(n, silence) == (StreamState {
            full_lead: st.full_lead,
            hold_eos: st.hold_eos,
            ref_len: st.ref_len,
            text_frames: st.text_frames,
            emitted_frame: (n - 8) as usize,
            onset_done: true,
            silent_run: silence,
        }),
{
}

/// A run is stopped exactly where the end is held back, more frames than text
/// tokens were handed on, and they end in more than 700 ms of silence.
pub proof fn padding_is_text_spent_and_silence(st: StreamState, n: int)
    ensures
        st.padding(n) <==> st.hold_eos && n - 8 > st.text_frames && st.silent_run * 1000 > 700
            * 24_000,
{
}

/// The silence at the end of a chunk is the longest run of windows there that
/// are all quieter than 0.006: the window before it is not.
pub proof fn silence_is_the_quiet_end(levels: Seq<Single>)
    ensures
        0 <= silence_start(levels) <= levels.len(),
        forall|i: int|
            silence_start(levels) <= i < levels.len() ==> (#[trigger] levels[i]).less(
                Single { bits: 0x3bc4_9ba6 },
            ),
        silence_start(levels) > 0 ==> !levels[silence_start(levels) - 1].less(
            Single { bits: 0x3bc4_9ba6 },
        ),
    decreases levels.len(),
{
    if levels.len() > 0 && levels.last().less(Single { bits: SILENCE_LEVEL }) {
        let rest = levels.drop_last();
        silence_is_the_quiet_end(rest);
        let k = silence_start(rest);
        assert(silence_start(levels) == k);
        assert forall|i: int| k <= i < levels.len() implies (#[trigger] levels[i]).less(
            Single { bits: 0x3bc4_9ba6 },
        ) by {
            if i < rest.len() {
                assert(rest[i] == levels[i]);
            }
        }
        if k > 0 {
            assert(rest[k - 1] == levels[k - 1]);
        }
    }
}

/// Silence is looked for in windows of 20 ms from the start, or in one of all
/// samples where there are fewer; the windows cover the samples, and none of
/// them is empty.
pub proof fn silence_windows_cover_the_chunk(len: int)
    requires
        0 < len,
    ensures
        silence_window(len) * 1000 == 20 * 24_000 || silence_window(len) == len < 480,
        silence_window(len) <= len,
        ({
            let win = silence_window(len);
            let n = windows_over(len, win);
            (n - 1) * win < len <= n * win
        }),
{
    let win = silence_window(len);
    let n = windows_over(len, win);
    assert((n - 1) * win < len <= n * win) by (nonlinear_arith)
        requires
            n == (len + win - 1) / win,
            win >= 1,
    ;
}

/// The end of a trimmed stream fades over 40 ms up to the end of its last
/// window over 0.005, or over all that is before that where it is less. Without
/// such a window it fades at the end of the samples.
pub proof fn fades_end_with_the_speech(levels: Seq<Single>, len: int, w: int)
    requires
        0 <= len,
    ensures
        ({
            let over = Single { bits: 0x3ba3_d70a };
            let (a, b) = fade_of(levels, len);
            &&& 0 <= w < levels.len() && over.less(levels[w]) && (forall|i: int|
                w < i < levels.len() ==> !over.less(#[trigger] levels[i])) ==> b == (w + 1) * 480
            &&& (forall|i: int| 0 <= i < levels.len() ==> !over.less(#[trigger] levels[i])) ==> b
                == len
            &&& b >= 960 ==> (b - a) * 1000 == 40 * 24_000
            &&& 0 <= b < 960 ==> a == 0
        }),
{
    let over = speech_level();
    let a = loud(levels, over);
    crate::postproc::windows_are_20_ms(24_000, 0);
    if 0 <= w < levels.len() && over.less(levels[w]) && (forall|i: int|
        w < i < levels.len() ==> !over.less(#[trigger] levels[i])) {
        crate::postproc::last_true_is_the_last(a, w);
    }
    if forall|i: int| 0 <= i < levels.len() ==> !over.less(#[trigger] levels[i]) {
        crate::postproc::last_true_is_the_last(a, 0);
    }
}

} // verus!
