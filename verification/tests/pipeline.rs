//! The prefill's plan and the generation loop.

use qwen3_tts::lang::Language;
use qwen3_tts::pipeline::{
    forced_logits, ClonePrompt, FrameLoop, PrefillPlan, TextRow, TokenAction, TTS_EOS, TTS_PAD,
};
use qwen3_tts::sampling::CODEC_EOS;
use qwen3_tts::TtsError;

fn prompt(language: Language, frames: usize, ref_text: &[u32]) -> ClonePrompt {
    ClonePrompt {
        language,
        speaker_embedding: Vec::new(),
        ref_codes: (0..frames as u32)
            .map(|i| (0..16).map(|g| 100 * i + g).collect())
            .collect(),
        ref_text_ids: ref_text.to_vec(),
    }
}

#[test]
fn a_prefill_without_reference_holds_the_first_token() {
    let p = PrefillPlan::new(&[7, 8, 9], &prompt(Language::Korean, 0, &[]), 40, true).unwrap();
    assert_eq!((p.kv_max, p.max_frames), (448, 40));
    assert_eq!(p.role, vec![151644, 77091, 198]);
    assert_eq!(p.codec_prefix, vec![2154, 2156, 2064, 2157]);
    assert_eq!(p.codec_suffix, vec![2148, 2149]);
    assert_eq!(
        p.text_under,
        vec![151671, 151671, 151671, 151671, 151671, 151672]
    );
    assert_eq!(p.first_text, Some(7));
    assert!(p.icl.is_none());
    assert_eq!(p.trailing, vec![8, 9, TTS_EOS]);
    assert_eq!((p.header_len, p.offset, p.boost_boundary), (10, 10, 0));
}

#[test]
fn a_reference_stands_under_its_text() {
    let p = PrefillPlan::new(&[7, 8, 9], &prompt(Language::Auto, 3, &[1, 2]), 40, true).unwrap();
    assert_eq!(p.codec_prefix, vec![2155, 2156, 2157]);
    assert_eq!(p.text_under.len(), 5);
    assert_eq!((p.header_len, p.offset, p.boost_boundary), (8, 12, 12));
    assert_eq!(p.first_text, None);
    let icl = p.icl.unwrap();
    assert_eq!(icl.semantic, vec![0, 100, 200]);
    assert_eq!(icl.groups.len(), 15);
    assert_eq!(icl.groups[14], vec![15, 115, 215]);
    assert_eq!(icl.text, vec![1, 2, 7, 8, 9, TTS_EOS]);
    assert_eq!((icl.head, icl.pads), (4, 0));
    assert_eq!(p.trailing, vec![9, TTS_EOS]);
}

#[test]
fn a_short_text_is_padded_and_not_boosted() {
    let p = PrefillPlan::new(&[7], &prompt(Language::Auto, 6, &[1]), 40, true).unwrap();
    let icl = p.icl.unwrap();
    assert_eq!((icl.head, icl.pads), (3, 4));
    assert_eq!(p.trailing, vec![TTS_PAD]);
    assert_eq!(p.boost_boundary, 0);
    let off = PrefillPlan::new(&[7; 20], &prompt(Language::Auto, 6, &[1]), 40, false).unwrap();
    assert_eq!(off.boost_boundary, 0);
}

#[test]
fn the_cache_grows_with_the_utterance() {
    let size = |frames: usize, max: usize| {
        let p = PrefillPlan::new(&[7], &prompt(Language::Auto, frames, &[1]), max, false).unwrap();
        assert!(p.offset + p.max_frames <= p.kv_max);
        (p.kv_max, p.max_frames)
    };
    assert_eq!(size(0, 424), (448, 416));
    assert_eq!(size(0, 425), (1024, 425));
    assert_eq!(size(100, 900), (1024, 892));
    assert_eq!(size(100, 901), (2048, 901));
    assert_eq!(size(100, usize::MAX), (2048, 1916));
    assert_eq!(size(2000, 40), (2048, 16));
    assert_eq!(size(2030, 40), (2048, 0));
}

#[test]
fn an_empty_text_has_no_prefill() {
    assert!(matches!(
        PrefillPlan::new(&[], &prompt(Language::Auto, 0, &[]), 4, false),
        Err(TtsError::EmptyText)
    ));
}

/// Frames the loop makes, where draw `i` comes out as the end if `ends` has it.
fn made(mut lp: FrameLoop, ends: &[usize]) -> usize {
    let mut n = 0;
    while let Some(masked) = lp.masked() {
        let tok = if !masked && ends.contains(&n) {
            CODEC_EOS
        } else {
            3
        };
        match lp.on_token(tok) {
            TokenAction::Stop => break,
            TokenAction::Redraw => assert_eq!(lp.on_token(4), TokenAction::Use),
            TokenAction::Use => {}
        }
        n += 1;
        if lp.advance().last {
            break;
        }
    }
    n
}

fn start(text: usize, max: usize, hold: bool) -> FrameLoop {
    let ids: Vec<u32> = (0..text as u32).collect();
    let p = PrefillPlan::new(&ids, &prompt(Language::Auto, 0, &[]), max, false).unwrap();
    FrameLoop::start(&p, hold)
}

#[test]
fn the_first_end_stops_the_loop() {
    assert_eq!(made(start(5, 30, false), &[0]), 0);
    assert_eq!(made(start(5, 30, false), &[4, 6]), 4);
    assert_eq!(made(start(5, 30, false), &[]), 30);
}

#[test]
fn a_held_end_waits_for_the_text_and_releases() {
    // Five text frames (four tokens and the end of text) and a grace of three.
    assert_eq!(made(start(5, 30, true), &[0, 3, 7]), 30);
    assert_eq!(made(start(5, 30, true), &[0, 3, 8]), 11);
    assert_eq!(made(start(5, 30, true), &[12, 13]), 15);
    assert_eq!(made(start(5, 30, true), &[29]), 30);
}

#[test]
fn frames_are_fed_back_with_their_text() {
    let mut lp = start(2, 4, false);
    let offset = lp.offset;
    let steps: Vec<_> = (0..4).map(|_| lp.advance()).collect();
    assert_eq!(steps[0].text, TextRow::Trailing(0));
    assert_eq!(steps[1].text, TextRow::Trailing(1));
    assert_eq!(steps[2].text, TextRow::Pad);
    assert_eq!(steps[3].position, offset + 3);
    assert!(lp.masked().is_none());
}

#[test]
fn codes_behind_the_sixteenth_play_no_part() {
    let mut p = prompt(Language::Auto, 3, &[1]);
    let plain = PrefillPlan::new(&[7], &p, 10, false).unwrap().icl.expect("a reference");
    p.ref_codes.iter_mut().for_each(|f| f.push(99));
    let longer = PrefillPlan::new(&[7], &p, 10, false).unwrap().icl.expect("a reference");
    assert_eq!(plain.semantic, longer.semantic);
    assert_eq!(plain.groups, longer.groups);
    assert_eq!(longer.groups.len(), 15);
}

#[test]
fn given_frames_must_fit_and_hold_codes() {
    let p = prompt(Language::Auto, 0, &[]);
    let forced = forced_logits(&[7, 8], &p, &vec![vec![1; 16]; 5]).unwrap();
    let rows: Vec<_> = forced.steps.iter().map(|s| s.text).collect();
    assert_eq!(forced.plan.trailing, vec![8, TTS_EOS]);
    assert_eq!(rows[..2], [TextRow::Trailing(0), TextRow::Trailing(1)]);
    assert_eq!(rows[2..], [TextRow::Pad; 3]);
    let at: Vec<_> = forced.steps.iter().map(|s| s.position).collect();
    let offset = forced.plan.offset;
    assert_eq!(at, (offset..offset + 5).collect::<Vec<_>>());
    assert!(forced_logits(&[7, 8], &p, &Vec::new()).unwrap().steps.is_empty());
    match forced_logits(&[7], &p, &vec![vec![1], vec![]]) {
        Err(TtsError::InvalidFrames(d)) => assert_eq!(d, "frame 1 is empty"),
        other => panic!("expected InvalidFrames, got {other:?}"),
    }
    // What no cache has room for is neither fed nor looked at.
    let mut long = vec![vec![1]; 2100];
    long[2016] = Vec::new();
    assert_eq!(forced_logits(&[7], &p, &long).unwrap().steps.len(), 2016);
    long[2015] = Vec::new();
    match forced_logits(&[7], &p, &long) {
        Err(TtsError::InvalidFrames(d)) => assert_eq!(d, "frame 2015 is empty"),
        other => panic!("expected InvalidFrames, got {other:?}"),
    }
    assert!(matches!(
        forced_logits(&[], &p, &Vec::new()),
        Err(TtsError::EmptyText)
    ));
}
