//! Streaming: what is decoded when, and what is handed on.

use qwen3_tts::ieee::Single;
use qwen3_tts::stream::{
    silent_tail, speak_fade, stream_fade, FinalAction, FrameAction, StreamState,
};

const SPF: usize = 1920;

fn singles(v: &[f32]) -> Vec<Single> {
    v.iter().map(|x| Single { bits: x.to_bits() }).collect()
}

/// Runs a stream over `total` frames whose lead is there after `lead` frames;
/// gives the samples of each chunk, counted from the first generated frame.
fn chunks(total: usize, lead: usize, ref_len: usize) -> Vec<(usize, usize)> {
    let mut st = StreamState::start(true, false, ref_len, 1000);
    let mut out = Vec::new();
    for n in 1..=total {
        match st.on_frame(n) {
            FrameAction::Wait => {}
            FrameAction::Onset(q) => {
                assert_eq!((q.generated, q.keep_from), (n, ref_len));
                out.extend(st.onset_decoded(n, n * SPF, 0, n >= lead));
            }
            FrameAction::Tail(q) => {
                let from = q.keep_from - ref_len;
                out.push((from * SPF, q.generated * SPF));
                assert!(!st.tail_decoded(n, (q.generated - from) * SPF, 0));
            }
        }
    }
    match st.finish(total) {
        FinalAction::Nothing => {}
        FinalAction::Whole(q) | FinalAction::Rest(q) => {
            out.push(((q.keep_from - ref_len) * SPF, q.generated * SPF))
        }
    }
    out
}

#[test]
fn chunks_follow_one_another() {
    assert_eq!(
        chunks(80, 20, 30),
        vec![
            (0, 12 * SPF),
            (12 * SPF, 36 * SPF),
            (36 * SPF, 60 * SPF),
            (60 * SPF, 80 * SPF)
        ]
    );
    assert_eq!(chunks(80, 81, 30), vec![(0, 80 * SPF)]);
    assert_eq!(chunks(0, 1, 0), vec![]);
    for (total, lead) in [(9, 9), (33, 1), (200, 100)] {
        let c = chunks(total, lead, 0);
        assert_eq!(c[0].0, 0);
        assert_eq!(c.last().unwrap().1, total * SPF);
        assert!(c.windows(2).all(|w| w[0].1 == w[1].0));
    }
}

#[test]
fn a_continuation_waits_for_120_ms_of_speech() {
    let mut st = StreamState::start(false, false, 0, 5);
    assert_eq!(st.onset_decoded(9, 9 * SPF, 9 * SPF - 2879, true), None);
    assert!(!st.onset_done);
    assert_eq!(st.onset_decoded(9, 9 * SPF, 9 * SPF - 2880, false), None);
    assert!(st.onset_done);
    assert_eq!(st.emitted_frame, 1);
    let mut st = StreamState::start(false, false, 0, 5);
    assert_eq!(
        st.onset_decoded(12, 12 * SPF, 100, false),
        Some((100, 4 * SPF))
    );
}

#[test]
fn a_run_that_only_pads_is_cut() {
    let mut st = StreamState::start(true, true, 0, 10);
    st.onset_decoded(20, 20 * SPF, 0, true);
    // 24 frames, all silent: longer than 700 ms.
    assert!(st.tail_decoded(44, 24 * SPF, 24 * SPF));
    let mut st = StreamState::start(true, true, 0, 10);
    st.onset_decoded(20, 20 * SPF, 0, true);
    assert!(!st.tail_decoded(44, 24 * SPF, 16_800));
    assert_eq!(st.silent_run, 16_800);
    assert!(st.tail_decoded(68, 24 * SPF, 24 * SPF));
    let mut st = StreamState::start(true, true, 0, 36);
    st.onset_decoded(20, 20 * SPF, 0, true);
    assert!(!st.tail_decoded(44, 24 * SPF, 24 * SPF));
    let mut st = StreamState::start(true, false, 0, 10);
    st.onset_decoded(20, 20 * SPF, 0, true);
    assert!(!st.tail_decoded(44, 24 * SPF, 24 * SPF));
}

#[test]
fn silence_is_measured_from_the_end() {
    let quiet = 0.0059f32;
    let tail = |levels: &[f32], len: usize| silent_tail(&singles(levels), len);
    assert_eq!(tail(&[0.5, quiet, 0.5, quiet, quiet], 2300), 2300 - 3 * 480);
    assert_eq!(tail(&[quiet, quiet], 500), 500);
    assert_eq!(tail(&[0.006], 480), 0);
    assert_eq!(tail(&[quiet], 100), 100);
    assert_eq!(tail(&[], 0), 0);
}

#[test]
fn fades_end_with_the_speech() {
    let fade = |levels: &[f32], len: usize| stream_fade(true, &singles(levels), len);
    assert_eq!(fade(&[0.5, 0.5, 0.5, 0.001], 2000), (480, 1440));
    assert_eq!(fade(&[0.5, 0.001], 1000), (0, 480));
    assert_eq!(fade(&[0.005, 0.001, 0.001], 1500), (540, 1500));
    assert_eq!(stream_fade(false, &singles(&[0.5]), 480), (480, 480));
    assert_eq!(speak_fade(true, 1000), (760, 1000));
    assert_eq!(speak_fade(true, 100), (0, 100));
    assert_eq!(speak_fade(false, 1000), (1000, 1000));
}

#[test]
fn a_stream_hands_on_every_sample_once() {
    for (total, lead) in [(1, 1), (8, 1), (9, 9), (80, 20), (80, 200), (300, 1)] {
        let given: Vec<usize> = chunks(total, lead, 12)
            .into_iter()
            .flat_map(|(a, b)| a..b)
            .collect();
        assert_eq!(given, (0..total * SPF).collect::<Vec<_>>());
    }
}

#[test]
fn a_run_without_a_held_end_is_never_cut() {
    let silence = 400 * SPF;
    for hold_eos in [false, true] {
        let mut st = StreamState::start(true, hold_eos, 0, 2);
        st.onset_decoded(30, 30 * SPF, 0, true);
        assert_eq!(st.tail_decoded(60, silence, silence), hold_eos);
    }
}
