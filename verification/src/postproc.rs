//! Where speech starts and ends.
//!
//! Audio is looked at in windows of 20 ms. Each window is known by its level
//! (the root mean square of its samples); everything below works on those
//! levels and answers in sample indices.

use crate::ieee::Single;
use vstd::prelude::*;

verus! {

/// The level above which a window counts as speech: 0.005, as a bit pattern.
pub const SPEECH_LEVEL: u32 = 0x3ba3_d70a;

/// 0.005.
pub open spec fn speech_level() -> Single {
    Single { bits: SPEECH_LEVEL }
}

/// Silent windows that a run of speech may bridge.
pub const GAP_WIN: usize = 4;

/// Windows that a run of speech lasts at least.
pub const MIN_WIN: usize = 10;

/// Windows kept before the first speech.
pub const PREROLL_WIN: usize = 3;

/// Windows kept after the last speech, for the decay of the final phoneme.
pub const TAIL_WIN: usize = 8;

/// Windows kept after the last loud window of an ending.
pub const RELEASE_WIN: usize = 3;

/// Windows kept on either side of the speech in a reference.
pub const MARGIN_WIN: usize = 2;

/// Samples in a window at a rate of `sr`.
pub open spec fn window(sr: u32) -> nat {
    if sr as nat * 20 / 1000 == 0 {
        1
    } else {
        sr as nat * 20 / 1000
    }
}

/// Samples in a 20 ms window at a rate of `sr`; at least one.
pub fn window_len(sr: u32) -> (r: usize)
    ensures
        r == window(sr),
        r >= 1,
{
    let n: u64 = sr as u64 * 20 / 1000;
    if n == 0 {
        1
    } else {
        n as usize
    }
}

/// Full windows in `len` samples.
pub open spec fn window_count(len: nat, sr: u32) -> nat {
    len / window(sr)
}

/// Full windows in `len` samples at a rate of `sr`.
pub fn windows_in(len: usize, sr: u32) -> (r: usize)
    ensures
        r == window_count(len as nat, sr),
{
    len / window_len(sr)
}

/// The smaller of two numbers.
pub open spec fn least(a: int, b: int) -> int {
    if a < b {
        a
    } else {
        b
    }
}

/// The end of the `n`-th window, but not past `len`.
fn window_end(n: u128, win: usize, len: usize) -> (r: usize)
    requires
        n <= u64::MAX + 64,
        win >= 1,
    ensures
        r == least(n * win, len as int),
{
    if n > len as u128 {
        assert(n * win > len) by (nonlinear_arith)
            requires
                n > len,
                win >= 1,
        ;
        len
    } else {
        assert(0 <= n * win <= u64::MAX * u64::MAX) by (nonlinear_arith)
            requires
                n <= len <= u64::MAX,
                win <= u64::MAX,
        ;
        let end: u128 = n * win as u128;
        if end < len as u128 {
            end as usize
        } else {
            len
        }
    }
}

/// Which windows are louder than a threshold.
pub open spec fn loud(levels: Seq<Single>, threshold: Single) -> Seq<bool> {
    levels.map_values(|l: Single| threshold.less(l))
}

fn louder(levels: &[Single], threshold: Single) -> (r: Vec<bool>)
    ensures
        r@ == loud(levels@, threshold),
{
    let mut out: Vec<bool> = Vec::new();
    let mut i: usize = 0;
    while i < levels.len()
        invariant
            i <= levels.len(),
            out@ =~= loud(levels@.take(i as int), threshold),
        decreases levels.len() - i,
    {
        out.push(threshold.lt(levels[i]));
        i = i + 1;
    }
    assert(levels@.take(i as int) =~= levels@);
    out
}

/// No more than `GAP_WIN` silent windows in a row between `s` and `e`.
pub open spec fn unbroken(a: Seq<bool>, s: int, e: int) -> bool {
    forall|i: int| #![trigger quiet(a, i)] s <= i && i + GAP_WIN <= e ==> !quiet(a, i)
}

/// More silent windows in a row from `i` on than a run may bridge.
pub open spec fn quiet(a: Seq<bool>, i: int) -> bool {
    forall|j: int| i <= j <= i + GAP_WIN && 0 <= j < a.len() ==> !#[trigger] a[j]
}

/// Speech starts at window `s`: it is loud, the windows before it are too
/// quiet to belong to the same run, and the run lasts long enough.
pub open spec fn speech_at(a: Seq<bool>, s: int) -> bool {
    &&& 0 <= s < a.len()
    &&& a[s]
    &&& quiet(a, s - GAP_WIN - 1)
    &&& exists|e: int|
        s + MIN_WIN - 1 <= e < a.len() && #[trigger] a[e] && unbroken(a, s, e)
}

/// The first window from `from` on at which speech starts.
pub open spec fn first_speech(a: Seq<bool>, from: int) -> Option<int>
    decreases a.len() - from,
{
    if from >= a.len() {
        None
    } else if speech_at(a, from) {
        Some(from)
    } else {
        first_speech(a, from + 1)
    }
}

/// Where the first speech starts, less the pre-roll; 0 where there is none.
pub open spec fn leading_cut(a: Seq<bool>, win: nat) -> int {
    match first_speech(a, 0) {
        None => 0,
        Some(s) => if s < PREROLL_WIN {
            0
        } else {
            (s - PREROLL_WIN) * win
        },
    }
}

proof fn lemma_first_speech(a: Seq<bool>, from: int, s: int)
    requires
        from <= s,
        forall|k: int| from <= k < s ==> !speech_at(a, k),
    ensures
        first_speech(a, from) == first_speech(a, s),
    decreases s - from,
{
    if from < s {
        if from >= a.len() {
            assert(first_speech(a, s) is None);
        } else {
            lemma_first_speech(a, from + 1, s);
        }
    }
}

/// A run that has just been broken after too few windows: nothing from its
/// start up to the window `w` that broke it is speech.
proof fn lemma_short_run(a: Seq<bool>, s: int, last: int, w: int)
    requires
        0 <= s <= last < a.len(),
        w <= a.len(),
        last < w,
        a[s],
        a[last],
        unbroken(a, s, last),
        last - s + 1 < MIN_WIN,
        forall|j: int| last < j < w ==> !#[trigger] a[j],
        w == a.len() || w == last + GAP_WIN + 2,
    ensures
        forall|k: int| s <= k < w ==> !speech_at(a, k),
{
    assert forall|k: int| s <= k < w implies !speech_at(a, k) by {
        if speech_at(a, k) {
            assert(k <= last);
            if k > s {
                let i = k - GAP_WIN - 1;
                assert(quiet(a, i));
                if i <= s {
                    assert(a[s]);
                } else {
                    assert(!quiet(a, i));
                }
            } else {
                let e = choose|e: int|
                    k + MIN_WIN - 1 <= e < a.len() && #[trigger] a[e] && unbroken(a, k, e);
                assert(e >= w);
                assert(quiet(a, last + 1));
            }
        }
    }
}

/// Where speech begins, so that what comes before it can be dropped: the first
/// run of windows over 0.005 that bridges gaps of at most 80 ms and lasts
/// 200 ms, less a pre-roll of 60 ms. 0 where there is no such run.
///
/// `levels` holds the level of each full window of `len` samples.
pub fn leading_trim(levels: &[Single], len: usize, sr: u32) -> (r: usize)
    requires
        levels.len() == window_count(len as nat, sr),
    ensures
        r == leading_cut(loud(levels@, speech_level()), window(sr)),
        r <= len,
{
    let win: usize = window_len(sr);
    let active: Vec<bool> = louder(levels, Single { bits: SPEECH_LEVEL });
    let ghost a: Seq<bool> = active@;
    let mut start: Option<usize> = None;
    let mut last: usize = 0;
    let mut w: usize = 0;
    while w < active.len()
        invariant
            a == active@,
            w <= active.len(),
            match start {
                None => {
                    &&& forall|k: int| 0 <= k < w ==> !#[trigger] speech_at(a, k)
                    &&& quiet(a, w - GAP_WIN - 1)
                },
                Some(s) => {
                    &&& s <= last < w <= last + GAP_WIN + 1
                    &&& a[s as int] && a[last as int]
                    &&& unbroken(a, s as int, last as int)
                    &&& quiet(a, s - GAP_WIN - 1)
                    &&& forall|k: int| 0 <= k < s ==> !#[trigger] speech_at(a, k)
                    &&& forall|j: int| last < j < w ==> !#[trigger] a[j]
                },
            },
            start is None ==> forall|j: int|
                w - GAP_WIN - 1 <= j < w && 0 <= j ==> !#[trigger] a[j],
        ensures
            w == active.len() || (start matches Some(s) && last - s + 1 >= MIN_WIN),
            start matches Some(s) ==> {
                &&& s <= last < active.len()
                &&& a[s as int] && a[last as int]
                &&& unbroken(a, s as int, last as int)
                &&& quiet(a, s - GAP_WIN - 1)
                &&& forall|k: int| 0 <= k < s ==> !#[trigger] speech_at(a, k)
                &&& w == active.len() ==> forall|j: int| last < j < w ==> !#[trigger] a[j]
            },
            start is None ==> forall|k: int| 0 <= k < w ==> !#[trigger] speech_at(a, k),
        decreases active.len() - w,
    {
        if active[w] {
            match start {
                None => {
                    start = Some(w);
                    assert(unbroken(a, w as int, w as int));
                    assert(quiet(a, w - GAP_WIN - 1));
                },
                Some(s) => {
                    assert forall|i: int|
                        #![trigger quiet(a, i)]
                        s <= i && i + GAP_WIN <= w implies !quiet(a, i) by {
                        if i + GAP_WIN > last {
                            if i <= last {
                                assert(a[last as int]);
                            } else {
                                assert(a[w as int]);
                            }
                        }
                    }
                },
            }
            last = w;
        } else {
            match start {
                None => {},
                Some(s) => {
                    if w - last > GAP_WIN {
                        if last - s + 1 >= MIN_WIN {
                            break;
                        }
                        proof {
                            lemma_short_run(a, s as int, last as int, w + 1);
                        }
                        start = None;
                    }
                },
            }
        }
        w = w + 1;
    }
    match start {
        Some(s) => {
            if last - s + 1 >= MIN_WIN {
                proof {
                    assert(speech_at(a, s as int));
                    lemma_first_speech(a, 0, s as int);
                }
                if s < PREROLL_WIN {
                    0
                } else {
                    let n: usize = s - PREROLL_WIN;
                    assert(n * win <= len) by (nonlinear_arith)
                        requires
                            n <= levels.len(),
                            levels.len() == len as nat / win as nat,
                            win >= 1,
                    ;
                    n * win
                }
            } else {
                proof {
                    lemma_short_run(a, s as int, last as int, a.len() as int);
                    lemma_first_speech(a, 0, a.len() as int);
                }
                0
            }
        },
        None => {
            proof {
                lemma_first_speech(a, 0, a.len() as int);
            }
            0
        },
    }
}

/// The last true entry.
pub open spec fn last_true(a: Seq<bool>) -> Option<int>
    decreases a.len(),
{
    if a.len() == 0 {
        None
    } else if a.last() {
        Some(a.len() - 1)
    } else {
        last_true(a.drop_last())
    }
}

/// The first true entry from `from` on.
pub open spec fn first_true(a: Seq<bool>, from: int) -> Option<int>
    decreases a.len() - from,
{
    if from >= a.len() {
        None
    } else if a[from] {
        Some(from)
    } else {
        first_true(a, from + 1)
    }
}

fn find_last(a: &Vec<bool>) -> (r: Option<usize>)
    ensures
        match r {
            None => last_true(a@) is None,
            Some(w) => last_true(a@) == Some(w as int) && w < a.len(),
        },
{
    let mut n: usize = a.len();
    assert(a@.take(n as int) =~= a@);
    while n > 0
        invariant
            n <= a.len(),
            last_true(a@) == last_true(a@.take(n as int)),
        decreases n,
    {
        assert(a@.take(n as int).drop_last() =~= a@.take(n - 1));
        if a[n - 1] {
            return Some(n - 1);
        }
        n = n - 1;
    }
    None
}

/// The last window whose level is over a threshold.
pub fn last_loud(levels: &[Single], threshold: Single) -> (r: Option<usize>)
    ensures
        match r {
            None => last_true(loud(levels@, threshold)) is None,
            Some(w) => last_true(loud(levels@, threshold)) == Some(w as int) && w < levels.len(),
        },
{
    find_last(&louder(levels, threshold))
}

fn find_first(a: &Vec<bool>) -> (r: Option<usize>)
    ensures
        match r {
            None => first_true(a@, 0) is None,
            Some(w) => first_true(a@, 0) == Some(w as int) && w < a.len(),
        },
{
    let mut w: usize = 0;
    while w < a.len()
        invariant
            w <= a.len(),
            first_true(a@, 0) == first_true(a@, w as int),
        decreases a.len() - w,
    {
        if a[w] {
            return Some(w);
        }
        w = w + 1;
    }
    None
}

/// Where to cut after the last speech: `TAIL_WIN` windows behind the last loud
/// one, but not past the end. Without a loud window nothing is cut.
pub open spec fn trailing_cut(a: Seq<bool>, win: nat, len: int) -> int {
    match last_true(a) {
        None => len,
        Some(w) => least((w + 1 + TAIL_WIN) * win, len),
    }
}

/// The sample index to cut after, dropping what is silent behind the last
/// window over 0.005. A tail of 160 ms is kept so that the last phoneme can
/// decay. `len` where there is nothing to cut.
pub fn trailing_trim(levels: &[Single], len: usize, sr: u32) -> (r: usize)
    requires
        levels.len() == window_count(len as nat, sr),
    ensures
        r == trailing_cut(loud(levels@, speech_level()), window(sr), len as int),
        r <= len,
{
    let win: usize = window_len(sr);
    let active: Vec<bool> = louder(levels, Single { bits: SPEECH_LEVEL });
    match find_last(&active) {
        Some(w) => window_end(w as u128 + 1 + TAIL_WIN as u128, win, len),
        None => len,
    }
}

/// The loudest of some levels, from zero on.
pub open spec fn loudest(levels: Seq<Single>) -> Single
    decreases levels.len(),
{
    if levels.len() == 0 {
        Single { bits: 0 }
    } else {
        let before = loudest(levels.drop_last());
        if before.less(levels.last()) {
            levels.last()
        } else {
            before
        }
    }
}

/// The loudest level, or zero. What is not a number is passed over.
pub fn peak(levels: &[Single]) -> (r: Single)
    ensures
        r == loudest(levels@),
{
    let mut best: Single = Single { bits: 0 };
    let mut i: usize = 0;
    while i < levels.len()
        invariant
            i <= levels.len(),
            best == loudest(levels@.take(i as int)),
        decreases levels.len() - i,
    {
        assert(levels@.take(i as int + 1).drop_last() =~= levels@.take(i as int));
        if best.lt(levels[i]) {
            best = levels[i];
        }
        i = i + 1;
    }
    assert(levels@.take(i as int) =~= levels@);
    best
}

/// Where to cut an ending: `RELEASE_WIN` windows behind the last one over the
/// threshold, or behind the first window where none is, but not past the end.
pub open spec fn release_cut(a: Seq<bool>, win: nat, len: int) -> int {
    if a.len() == 0 {
        len
    } else {
        let last = match last_true(a) {
            None => 0,
            Some(w) => w,
        };
        least((last + 1 + RELEASE_WIN) * win, len)
    }
}

/// The sample index to cut an ending after. The release of the last vowel
/// fades for a long time; what is kept is the phoneme and 60 ms behind the
/// last window whose level is over `threshold`, which the caller sets to 45%
/// of the [`peak`] and at least 0.006.
pub fn release_trim(levels: &[Single], threshold: Single, len: usize, sr: u32) -> (r: usize)
    requires
        levels.len() == window_count(len as nat, sr),
    ensures
        r == release_cut(loud(levels@, threshold), window(sr), len as int),
        r <= len,
{
    let win: usize = window_len(sr);
    if levels.len() == 0 {
        return len;
    }
    let active: Vec<bool> = louder(levels, threshold);
    let last: usize = match find_last(&active) {
        Some(w) => w,
        None => 0,
    };
    window_end(last as u128 + 1 + RELEASE_WIN as u128, win, len)
}

/// The range of speech in a reference: from the first to the last window over
/// the threshold, with a margin on either side. Where none is over it the
/// first and the last window take their place.
pub open spec fn speech_range(a: Seq<bool>, win: nat, len: int) -> (int, int) {
    let first = match first_true(a, 0) {
        None => 0,
        Some(w) => w,
    };
    let last = match last_true(a) {
        None => a.len() - 1,
        Some(w) => w,
    };
    let start = if first < MARGIN_WIN {
        0
    } else {
        (first - MARGIN_WIN) * win
    };
    (start, least((last + 1 + MARGIN_WIN) * win, len))
}

/// Whether a reference has anything to bound: a full window, and a level above
/// zero.
pub open spec fn audible(levels: Seq<Single>) -> bool {
    Single { bits: 0 }.less(loudest(levels))
}

proof fn lemma_first_last(a: Seq<bool>, from: int)
    requires
        0 <= from,
    ensures
        first_true(a, from) matches Some(f) ==> from <= f < a.len() && a[f],
    decreases a.len() - from,
{
    if from < a.len() && !a[from] {
        lemma_first_last(a, from + 1);
    }
}

proof fn lemma_last_true(a: Seq<bool>, k: int)
    requires
        0 <= k < a.len(),
        a[k],
    ensures
        last_true(a) matches Some(w) && k <= w < a.len(),
    decreases a.len(),
{
    if !a.last() {
        lemma_last_true(a.drop_last(), k);
    }
}

/// The bounds of the speech in a reference clip, as a sample range.
///
/// A reference is shown to the model as an example of how an utterance is
/// delivered, silence included: a clip that carries a second of trailing room
/// tone teaches the model to fade out instead of articulating its last
/// syllable, and the same silence dilutes the speaker vector. Both ends are
/// cut back to a margin of 40 ms around the windows whose level is over
/// `threshold`, which the caller sets to 3% of the [`peak`] and at least
/// 0.0001.
pub fn speech_bounds(levels: &[Single], threshold: Single, len: usize, sr: u32) -> (r: (
    usize,
    usize,
))
    requires
        levels.len() == window_count(len as nat, sr),
    ensures
        !audible(levels@) ==> r == (0usize, len),
        audible(levels@) ==> (r.0 as int, r.1 as int) == speech_range(
            loud(levels@, threshold),
            window(sr),
            len as int,
        ),
        r.0 <= r.1 <= len,
{
    let win: usize = window_len(sr);
    let zero: Single = Single { bits: 0 };
    if levels.len() == 0 || !zero.lt(peak(levels)) {
        return (0, len);
    }
    let active: Vec<bool> = louder(levels, threshold);
    let first: usize = match find_first(&active) {
        Some(w) => w,
        None => 0,
    };
    let last: usize = match find_last(&active) {
        Some(w) => w,
        None => levels.len() - 1,
    };
    proof {
        lemma_first_last(active@, 0);
        if first_true(active@, 0) is Some {
            lemma_last_true(active@, first as int);
        }
        assert(first <= last);
        assert(first * win <= len && (first - MARGIN_WIN) * win <= first * win && first * win <= (
        last + 1 + MARGIN_WIN) * win) by (nonlinear_arith)
            requires
                first <= last,
                first <= levels.len(),
                levels.len() == len as nat / win as nat,
                win >= 1,
        ;
    }
    let start: usize = if first < MARGIN_WIN {
        0
    } else {
        let n: usize = first - MARGIN_WIN;
        n * win
    };
    (start, window_end(last as u128 + 1 + MARGIN_WIN as u128, win, len))
}

/// The speech of a clip; all of it where it is inaudible.
pub open spec fn speech_of(
    samples: Seq<Single>,
    levels: Seq<Single>,
    threshold: Single,
    sr: u32,
) -> Seq<Single> {
    if audible(levels) {
        let (a, b) = speech_range(loud(levels, threshold), window(sr), samples.len() as int);
        samples.subrange(a, b)
    } else {
        samples
    }
}

/// The speech of a reference clip: [`speech_bounds`] applied to its samples.
pub fn trim_silence(samples: &[Single], levels: &[Single], threshold: Single, sr: u32) -> (r: Vec<
    Single,
>)
    requires
        levels.len() == window_count(samples.len() as nat, sr),
    ensures
        r@ == speech_of(samples@, levels@, threshold, sr),
{
    let (a, b): (usize, usize) = speech_bounds(levels, threshold, samples.len(), sr);
    let part: &[Single] = vstd::slice::slice_subrange(samples, a, b);
    let r: Vec<Single> = vstd::slice::slice_to_vec(part);
    assert(r@ =~= part@);
    assert(samples@.subrange(0, samples@.len() as int) =~= samples@);
    r
}

/// No trim at the end cuts into a window over its threshold, and the bounds of
/// a reference contain every such window.
pub proof fn trims_keep_loud_windows(a: Seq<bool>, win: nat, len: int, w: int)
    requires
        win >= 1,
        a.len() * win <= len,
        0 <= w < a.len(),
        a[w],
    ensures
        (w + 1) * win <= trailing_cut(a, win, len),
        (w + 1) * win <= release_cut(a, win, len),
        speech_range(a, win, len).0 <= w * win,
        (w + 1) * win <= speech_range(a, win, len).1,
{
    lemma_last_true(a, w);
    lemma_first_true(a, 0, w);
    let last = last_true(a)->0;
    let first = first_true(a, 0)->0;
    assert((w + 1) * win <= len && (w + 1) * win <= (last + 1 + MARGIN_WIN) * win && (w + 1) * win
        <= (last + 1 + RELEASE_WIN) * win && (w + 1) * win <= (last + 1 + TAIL_WIN) * win)
        by (nonlinear_arith)
        requires
            w <= last,
            w + 1 <= a.len(),
            a.len() * win <= len,
            win >= 1,
    ;
    assert((first - MARGIN_WIN) * win <= w * win && 0 <= w * win) by (nonlinear_arith)
        requires
            0 <= first <= w,
            win >= 1,
    ;
}

proof fn lemma_first_true(a: Seq<bool>, from: int, k: int)
    requires
        0 <= from <= k < a.len(),
        a[k],
    ensures
        first_true(a, from) matches Some(f) && from <= f <= k,
    decreases k - from,
{
    if !a[from] {
        lemma_first_true(a, from + 1, k);
    }
}

/// The level of each full window of a clip, where `level` is that of a window.
pub open spec fn levels_of(
    samples: Seq<Single>,
    level: spec_fn(Seq<Single>) -> Single,
    sr: u32,
) -> Seq<Single> {
    let win = window(sr) as int;
    Seq::new(
        window_count(samples.len(), sr),
        |w: int| level(samples.subrange(w * win, (w + 1) * win)),
    )
}

/// The speech of a clip, where `level` is the level of a window and `threshold`
/// that of a peak.
pub open spec fn clip_speech(
    samples: Seq<Single>,
    level: spec_fn(Seq<Single>) -> Single,
    threshold: spec_fn(Single) -> Single,
    sr: u32,
) -> Seq<Single> {
    let levels = levels_of(samples, level, sr);
    speech_of(samples, levels, threshold(loudest(levels)), sr)
}

/// Trimming a clip that was trimmed already changes nothing, however the level
/// of a window is measured and the threshold is set by the peak.
pub proof fn trimming_is_idempotent(
    samples: Seq<Single>,
    level: spec_fn(Seq<Single>) -> Single,
    threshold: spec_fn(Single) -> Single,
    sr: u32,
)
    ensures
        clip_speech(clip_speech(samples, level, threshold, sr), level, threshold, sr)
            == clip_speech(samples, level, threshold, sr),
{
    let win = window(sr) as int;
    let len = samples.len() as int;
    let levels = levels_of(samples, level, sr);
    let n = levels.len() as int;
    assert(n * win <= len < (n + 1) * win) by (nonlinear_arith)
        requires
            n == len / win,
            win >= 1,
            len >= 0,
    ;
    if audible(levels) {
        let th = threshold(loudest(levels));
        let a = loud(levels, th);
        lemma_loudest(levels);
        if forall|i: int| 0 <= i < n ==> !#[trigger] a[i] {
            lemma_none_true(a, 0);
            assert((n + 2) * win >= len) by (nonlinear_arith)
                requires
                    len < (n + 1) * win,
                    win >= 1,
            ;
            assert(samples.subrange(0, len) =~= samples);
        } else {
            let x = choose|i: int| 0 <= i < n && #[trigger] a[i];
            lemma_first_true(a, 0, x);
            lemma_last_true(a, x);
            lemma_first_last(a, 0);
            lemma_first_gap(a, 0);
            lemma_last_gap(a);
            let f = first_true(a, 0)->0;
            let g = last_true(a)->0;
            lemma_trimmed_clip(samples, level, sr, f, g);
            let (s, e) = speech_range(a, win as nat, len);
            let t = samples.subrange(s, e);
            let c = if f < MARGIN_WIN {
                0
            } else {
                f - MARGIN_WIN
            };
            let after = levels_of(t, level, sr);
            let m = after.len() as int;
            assert forall|i: int| 0 <= i < n && th.less(#[trigger] levels[i]) implies f <= i <= g by {
                assert(a[i]);
            }
            lemma_peak_stays(levels, th, f, g, c, m);
            let b = loud(after, th);
            assert(b =~= a.subrange(c, c + m));
            lemma_first_is(b, 0, f - c);
            lemma_last_is(b, g - c);
            assert((g - c + 1 + MARGIN_WIN) * win == (g + 1 + MARGIN_WIN) * win - c * win)
                by (nonlinear_arith);
            assert(c * win == s);
            assert(t.subrange(0, t.len() as int) =~= t);
        }
    }
}

/// The windows of a trimmed clip are windows of the clip: those from the margin
/// before the first loud one on, up to the margin behind the last one.
proof fn lemma_trimmed_clip(
    samples: Seq<Single>,
    level: spec_fn(Seq<Single>) -> Single,
    sr: u32,
    f: int,
    g: int,
)
    requires
        0 <= f <= g < window_count(samples.len(), sr),
    ensures
        ({
            let win = window(sr) as int;
            let c = if f < MARGIN_WIN {
                0
            } else {
                f - MARGIN_WIN
            };
            let e = least((g + 1 + MARGIN_WIN) * win, samples.len() as int);
            let t = samples.subrange(c * win, e);
            let levels = levels_of(samples, level, sr);
            let after = levels_of(t, level, sr);
            &&& 0 <= c * win <= e <= samples.len()
            &&& g < c + after.len() <= levels.len()
            &&& after == levels.subrange(c, c + after.len())
        }),
{
    let win = window(sr) as int;
    let len = samples.len() as int;
    let n = window_count(samples.len(), sr) as int;
    let c = if f < MARGIN_WIN {
        0
    } else {
        f - MARGIN_WIN
    };
    let e = least((g + 1 + MARGIN_WIN) * win, len);
    assert(n * win <= len < (n + 1) * win) by (nonlinear_arith)
        requires
            n == len / win,
            win >= 1,
            len >= 0,
    ;
    assert((g + 1) * win <= n * win && c * win <= g * win && 0 <= c * win && (g + 1) * win == g
        * win + win && (g + 1) * win <= (g + 1 + MARGIN_WIN) * win) by (nonlinear_arith)
        requires
            0 <= c <= g,
            g + 1 <= n,
            win >= 1,
    ;
    let t = samples.subrange(c * win, e);
    let m = window_count(t.len(), sr) as int;
    assert(m == (e - c * win) / win);
    if (g + 1 + MARGIN_WIN) * win < len {
        assert(m == g + 1 + MARGIN_WIN - c) by (nonlinear_arith)
            requires
                m == ((g + 1 + MARGIN_WIN) * win - c * win) / win,
                win >= 1,
        ;
        assert(g + 1 + MARGIN_WIN <= n) by (nonlinear_arith)
            requires
                (g + 1 + MARGIN_WIN) * win < (n + 1) * win,
                win >= 1,
        ;
    } else {
        assert(m == n - c) by (nonlinear_arith)
            requires
                m == (len - c * win) / win,
                n * win <= len < (n + 1) * win,
                win >= 1,
        ;
    }
    let levels = levels_of(samples, level, sr);
    let after = levels_of(t, level, sr);
    assert forall|w: int| 0 <= w < m implies after[w] == #[trigger] levels.subrange(c, c + m)[w] by {
        assert(0 <= w * win && w * win + c * win == (c + w) * win && (w + 1) * win + c * win == (c
            + w + 1) * win && (w + 1) * win <= m * win && w * win <= (w + 1) * win && m * win <= e
            - c * win) by (nonlinear_arith)
            requires
                0 <= w < m,
                win >= 1,
                m == (e - c * win) / win,
        ;
        assert(t.subrange(w * win, (w + 1) * win) =~= samples.subrange(
            (c + w) * win,
            (c + w + 1) * win,
        ));
    }
    assert(after =~= levels.subrange(c, c + m));
}

/// The loudest level of an audible clip is one of its levels, and none is above
/// it.
proof fn lemma_loudest(levels: Seq<Single>)
    ensures
        !loudest(levels).nan(),
        loudest(levels).key() >= 0,
        forall|i: int| 0 <= i < levels.len() ==> !loudest(levels).less(#[trigger] levels[i]),
        audible(levels) ==> levels.contains(loudest(levels)),
    decreases levels.len(),
{
    if levels.len() > 0 {
        let rest = levels.drop_last();
        lemma_loudest(rest);
        assert forall|i: int| 0 <= i < levels.len() implies !loudest(levels).less(
            #[trigger] levels[i],
        ) by {
            if i < rest.len() {
                assert(rest[i] == levels[i]);
            }
        }
        if loudest(rest).less(levels.last()) {
            assert(levels[levels.len() - 1] == loudest(levels));
        } else if audible(levels) {
            let k = choose|k: int| 0 <= k < rest.len() && rest[k] == loudest(rest);
            assert(levels[k] == loudest(levels));
        }
    }
}

/// The part of a clip that holds its loud windows is as loud as the clip.
proof fn lemma_peak_stays(levels: Seq<Single>, th: Single, f: int, g: int, c: int, m: int)
    requires
        audible(levels),
        0 <= c <= f <= g < c + m <= levels.len(),
        th.less(levels[f]),
        forall|i: int|
            0 <= i < levels.len() && th.less(#[trigger] levels[i]) ==> f <= i <= g,
    ensures
        audible(levels.subrange(c, c + m)),
        loudest(levels.subrange(c, c + m)) == loudest(levels),
{
    let part = levels.subrange(c, c + m);
    lemma_loudest(levels);
    lemma_loudest(part);
    let peak = loudest(levels);
    let p = choose|p: int| 0 <= p < levels.len() && levels[p] == peak;
    assert(!peak.less(levels[f]));
    assert(th.less(levels[p]));
    assert(part[p - c] == peak);
    assert(!loudest(part).less(part[p - c]));
    let q = choose|q: int| 0 <= q < part.len() && part[q] == loudest(part);
    assert(part[q] == levels[c + q]);
    assert(!peak.less(levels[c + q]));
    assert(loudest(part).key() == peak.key() > 0);
}

proof fn lemma_none_true(a: Seq<bool>, from: int)
    requires
        0 <= from,
        forall|i: int| 0 <= i < a.len() ==> !#[trigger] a[i],
    ensures
        first_true(a, from) is None,
        last_true(a) is None,
    decreases a.len() - from,
{
    if from < a.len() {
        lemma_none_true(a, from + 1);
    }
    lemma_no_last(a);
}

proof fn lemma_no_last(a: Seq<bool>)
    requires
        forall|i: int| 0 <= i < a.len() ==> !#[trigger] a[i],
    ensures
        last_true(a) is None,
    decreases a.len(),
{
    if a.len() > 0 {
        lemma_no_last(a.drop_last());
    }
}

proof fn lemma_first_gap(a: Seq<bool>, from: int)
    requires
        0 <= from,
    ensures
        first_true(a, from) matches Some(f) ==> forall|i: int| from <= i < f ==> !#[trigger] a[i],
    decreases a.len() - from,
{
    if from < a.len() && !a[from] {
        lemma_first_gap(a, from + 1);
    }
}

proof fn lemma_last_gap(a: Seq<bool>)
    ensures
        last_true(a) matches Some(g) ==> 0 <= g < a.len() && a[g] && forall|i: int|
            g < i < a.len() ==> !#[trigger] a[i],
    decreases a.len(),
{
    if a.len() > 0 && !a.last() {
        let rest = a.drop_last();
        lemma_last_gap(rest);
        if last_true(a) is Some {
            let g = last_true(a)->0;
            assert forall|i: int| g < i < a.len() implies !#[trigger] a[i] by {
                if i < rest.len() {
                    assert(rest[i] == a[i]);
                }
            }
        }
    }
}

proof fn lemma_first_is(a: Seq<bool>, from: int, k: int)
    requires
        0 <= from <= k < a.len(),
        a[k],
        forall|i: int| from <= i < k ==> !#[trigger] a[i],
    ensures
        first_true(a, from) == Some(k),
    decreases k - from,
{
    if from < k {
        lemma_first_is(a, from + 1, k);
    }
}

proof fn lemma_last_is(a: Seq<bool>, k: int)
    requires
        0 <= k < a.len(),
        a[k],
        forall|i: int| k < i < a.len() ==> !#[trigger] a[i],
    ensures
        last_true(a) == Some(k),
    decreases a.len(),
{
    if k < a.len() - 1 {
        let rest = a.drop_last();
        assert forall|i: int| k < i < rest.len() implies !#[trigger] rest[i] by {
            assert(rest[i] == a[i]);
        }
        lemma_last_is(rest, k);
    }
}

/// The trim at the start keeps the first speech and its pre-roll: it cuts at
/// the start of a window, no later than the first window of the first run that
/// counts as speech, and nothing it cuts counts as speech.
pub proof fn leading_trim_keeps_the_speech(a: Seq<bool>, win: nat, k: int)
    requires
        win >= 1,
        speech_at(a, k),
    ensures
        0 <= leading_cut(a, win) <= k * win,
        leading_cut(a, win) % win as int == 0,
        first_speech(a, 0) matches Some(s) && s <= k && speech_at(a, s) && (s >= PREROLL_WIN
            ==> leading_cut(a, win) == (s - PREROLL_WIN) * win),
{
    lemma_first_speech_found(a, 0, k);
    let s = first_speech(a, 0)->0;
    if s >= PREROLL_WIN {
        let n = s - PREROLL_WIN;
        assert(0 <= n * win <= k * win) by (nonlinear_arith)
            requires
                0 <= n <= k,
                win >= 1,
        ;
        vstd::arithmetic::div_mod::lemma_mod_multiples_basic(n, win as int);
        assert(leading_cut(a, win) == n * win as int);
    } else {
        assert(0 <= k * win) by (nonlinear_arith)
            requires
                0 <= k,
                win >= 1,
        ;
        vstd::arithmetic::div_mod::lemma_small_mod(0, win);
        assert(leading_cut(a, win) == 0);
    }
}

proof fn lemma_first_speech_found(a: Seq<bool>, from: int, k: int)
    requires
        0 <= from <= k,
        speech_at(a, k),
    ensures
        first_speech(a, from) matches Some(s) && from <= s <= k && speech_at(a, s),
    decreases k - from,
{
    if !speech_at(a, from) {
        lemma_first_speech_found(a, from + 1, k);
    }
}

/// A window is 20 ms: as many whole samples as fit, but at least one; and the
/// full windows of a clip leave less than a window over.
pub proof fn windows_are_20_ms(sr: u32, len: nat)
    ensures
        sr >= 50 ==> window(sr) * 1000 <= sr * 20 < (window(sr) + 1) * 1000,
        sr < 50 ==> window(sr) == 1,
        window(24_000) == 480,
        window_count(len, sr) * window(sr) <= len < (window_count(len, sr) + 1) * window(sr),
{
    let win = window(sr);
    let n = window_count(len, sr);
    assert(n * win <= len < (n + 1) * win) by (nonlinear_arith)
        requires
            n == len / win,
            win >= 1,
    ;
}

/// The last true entry is true, and none behind it is; there is none only where
/// no entry is true.
pub proof fn last_true_is_the_last(a: Seq<bool>, w: int)
    ensures
        0 <= w < a.len() && a[w] && (forall|i: int| w < i < a.len() ==> !#[trigger] a[i])
            ==> last_true(a) == Some(w),
        (forall|i: int| 0 <= i < a.len() ==> !#[trigger] a[i]) ==> last_true(a) is None,
        last_true(a) matches Some(g) ==> 0 <= g < a.len() && a[g] && forall|i: int|
            g < i < a.len() ==> !#[trigger] a[i],
{
    if 0 <= w < a.len() && a[w] && (forall|i: int| w < i < a.len() ==> !#[trigger] a[i]) {
        lemma_last_is(a, w);
    }
    if forall|i: int| 0 <= i < a.len() ==> !#[trigger] a[i] {
        lemma_no_last(a);
    }
    lemma_last_gap(a);
}

/// Whether window `w` is the last one whose level is over a threshold.
pub open spec fn ends_loud(levels: Seq<Single>, threshold: Single, w: int) -> bool {
    &&& 0 <= w < levels.len()
    &&& threshold.less(levels[w])
    &&& forall|i: int| w < i < levels.len() ==> !threshold.less(#[trigger] levels[i])
}

/// Whether window `w` is the first one whose level is over a threshold.
pub open spec fn starts_loud(levels: Seq<Single>, threshold: Single, w: int) -> bool {
    &&& 0 <= w < levels.len()
    &&& threshold.less(levels[w])
    &&& forall|i: int| 0 <= i < w ==> !threshold.less(#[trigger] levels[i])
}

/// Whether no window's level is over a threshold.
pub open spec fn none_loud(levels: Seq<Single>, threshold: Single) -> bool {
    forall|i: int| 0 <= i < levels.len() ==> !threshold.less(#[trigger] levels[i])
}

/// The trim at the end keeps eight windows behind the last one over 0.005 and
/// drops everything behind those, whatever comes before; where less follows it
/// keeps all of it. Without a window over 0.005 it drops nothing.
pub proof fn trailing_trim_keeps_160_ms(levels: Seq<Single>, win: nat, len: int, w: int)
    ensures
        ({
            let over = Single { bits: 0x3ba3_d70a };
            let cut = trailing_cut(loud(levels, over), win, len);
            &&& ends_loud(levels, over, w) && (w + 9) * win <= len ==> cut == (w + 9) * win
            &&& ends_loud(levels, over, w) && (w + 9) * win >= len ==> cut == len
            &&& none_loud(levels, over) ==> cut == len
        }),
        speech_level() == (Single { bits: 0x3ba3_d70a }),
{
    let over = Single { bits: 0x3ba3_d70a };
    let a = loud(levels, over);
    if ends_loud(levels, over, w) {
        last_true_is_the_last(a, w);
    }
    if none_loud(levels, over) {
        last_true_is_the_last(a, w);
    }
}

/// The cut of an ending keeps three windows behind the last one over the
/// threshold and drops everything behind those; where less follows it keeps all
/// of it. Without a window over the threshold it keeps the first one and three
/// behind it; without a window it drops nothing.
pub proof fn release_trim_keeps_60_ms(
    levels: Seq<Single>,
    threshold: Single,
    win: nat,
    len: int,
    w: int,
)
    ensures
        ({
            let cut = release_cut(loud(levels, threshold), win, len);
            &&& ends_loud(levels, threshold, w) && (w + 4) * win <= len ==> cut == (w + 4) * win
            &&& ends_loud(levels, threshold, w) && (w + 4) * win >= len ==> cut == len
            &&& levels.len() > 0 && none_loud(levels, threshold) ==> cut == if 4 * win <= len {
                4 * win as int
            } else {
                len
            }
            &&& levels.len() == 0 ==> cut == len
        }),
{
    let a = loud(levels, threshold);
    if ends_loud(levels, threshold, w) {
        last_true_is_the_last(a, w);
    }
    if none_loud(levels, threshold) {
        last_true_is_the_last(a, w);
    }
}

/// The speech of a reference is cut out with two windows on either side of its
/// first and last one over the threshold, as far as there are any, and nothing
/// more; where none is over it all windows count. The clip that is left is that
/// part of the samples.
pub proof fn reference_keeps_40_ms_around(
    samples: Seq<Single>,
    levels: Seq<Single>,
    threshold: Single,
    sr: u32,
    f: int,
    g: int,
)
    requires
        levels.len() == window_count(samples.len(), sr),
    ensures
        ({
            let (win, len) = (window(sr), samples.len() as int);
            let (a, b) = speech_range(loud(levels, threshold), win, len);
            &&& starts_loud(levels, threshold, f) && f >= 2 ==> a == (f - 2) * win
            &&& starts_loud(levels, threshold, f) && f < 2 ==> a == 0
            &&& ends_loud(levels, threshold, g) && (g + 3) * win <= len ==> b == (g + 3) * win
            &&& ends_loud(levels, threshold, g) && (g + 3) * win >= len ==> b == len
            &&& none_loud(levels, threshold) ==> a == 0 && b == len
            &&& audible(levels) ==> speech_of(samples, levels, threshold, sr) == samples.subrange(
                a,
                b,
            )
            &&& !audible(levels) ==> speech_of(samples, levels, threshold, sr) == samples
        }),
        audible(levels) <==> exists|i: int|
            0 <= i < levels.len() && (Single { bits: 0 }).less(#[trigger] levels[i]),
{
    let a = loud(levels, threshold);
    let (win, len) = (window(sr), samples.len() as int);
    windows_are_20_ms(sr, samples.len());
    if starts_loud(levels, threshold, f) {
        assert forall|i: int| 0 <= i < f implies !#[trigger] a[i] by {
            assert(!threshold.less(levels[i]));
        }
        lemma_first_is(a, 0, f);
    }
    if ends_loud(levels, threshold, g) {
        last_true_is_the_last(a, g);
    }
    if none_loud(levels, threshold) {
        lemma_none_true(a, 0);
        assert((a.len() + 2) * win >= len) by (nonlinear_arith)
            requires
                len < (a.len() + 1) * win,
                win >= 1,
        ;
        assert(a.len() - 1 + 1 + MARGIN_WIN == a.len() + 2);
    }
    lemma_loudest(levels);
    if audible(levels) {
        let k = choose|k: int| 0 <= k < levels.len() && levels[k] == loudest(levels);
        assert((Single { bits: 0 }).less(levels[k]));
    } else if exists|i: int| 0 <= i < levels.len() && (Single { bits: 0 }).less(#[trigger] levels[i]) {
        let i = choose|i: int| 0 <= i < levels.len() && (Single { bits: 0 }).less(#[trigger] levels[i]);
        assert(!loudest(levels).less(levels[i]));
    }
}

/// The peak is a level that no other is above, or zero where none is above
/// zero.
pub proof fn no_level_is_above_the_peak(levels: Seq<Single>)
    ensures
        forall|i: int| 0 <= i < levels.len() ==> !loudest(levels).less(#[trigger] levels[i]),
        levels.contains(loudest(levels)) || loudest(levels) == (Single { bits: 0 }),
        !loudest(levels).less((Single { bits: 0 })),
    decreases levels.len(),
{
    lemma_loudest(levels);
    if levels.len() > 0 {
        let rest = levels.drop_last();
        no_level_is_above_the_peak(rest);
        if loudest(rest).less(levels.last()) {
            assert(levels[levels.len() - 1] == loudest(levels));
        } else if rest.contains(loudest(rest)) {
            let k = choose|k: int| 0 <= k < rest.len() && rest[k] == loudest(rest);
            assert(levels[k] == loudest(levels));
        }
    }
}

/// Whether a run that counts as speech starts at window `s`: its level is over
/// 0.005, none of the five windows before it is, and a window at least nine
/// behind it is over 0.005, too, without five in a row between them that are
/// not.
pub open spec fn run_starts(levels: Seq<Single>, s: int) -> bool {
    let over = Single { bits: 0x3ba3_d70a };
    &&& 0 <= s < levels.len()
    &&& over.less(levels[s])
    &&& forall|i: int| s - 5 <= i < s && 0 <= i ==> !over.less(#[trigger] levels[i])
    &&& exists|e: int|
        s + 9 <= e < levels.len() && over.less(#[trigger] levels[e]) && bridged(levels, s, e)
}

/// Of any five windows in a row from `s` to `e` one is over 0.005.
pub open spec fn bridged(levels: Seq<Single>, s: int, e: int) -> bool {
    forall|i: int|
        s <= i && i + 4 <= e ==> #[trigger] over_one_of_five(levels, i)
}

/// Whether one of the five windows from `i` on is over 0.005.
pub open spec fn over_one_of_five(levels: Seq<Single>, i: int) -> bool {
    exists|j: int|
        i <= j < i + 5 && 0 <= j < levels.len() && Single { bits: 0x3ba3_d70a }.less(
            #[trigger] levels[j],
        )
}

/// The trim at the start cuts 60 ms before the first run that counts as speech,
/// or nothing where the run starts earlier than that, or where there is none.
pub proof fn leading_trim_keeps_60_ms(levels: Seq<Single>, win: nat, s: int)
    ensures
        ({
            let cut = leading_cut(loud(levels, speech_level()), win);
            let first = run_starts(levels, s) && forall|k: int|
                0 <= k < s ==> !#[trigger] run_starts(levels, k);
            &&& first && s >= 3 ==> cut == (s - 3) * win
            &&& first && s < 3 ==> cut == 0
            &&& (forall|k: int| !#[trigger] run_starts(levels, k)) ==> cut == 0
        }),
{
    let a = loud(levels, speech_level());
    assert forall|k: int| run_starts(levels, k) <==> #[trigger] speech_at(a, k) by {
        lemma_run_starts(levels, k);
    }
    if run_starts(levels, s) && (forall|k: int| 0 <= k < s ==> !#[trigger] run_starts(levels, k)) {
        assert forall|k: int| 0 <= k < s implies !speech_at(a, k) by {
            assert(!run_starts(levels, k));
        }
        lemma_first_speech(a, 0, s);
        assert(speech_at(a, s));
    }
    if forall|k: int| !#[trigger] run_starts(levels, k) {
        assert forall|k: int| 0 <= k < a.len() implies !speech_at(a, k) by {
            assert(!run_starts(levels, k));
        }
        lemma_first_speech(a, 0, a.len() as int);
    }
}

proof fn lemma_run_starts(levels: Seq<Single>, s: int)
    ensures
        run_starts(levels, s) <==> speech_at(loud(levels, speech_level()), s),
{
    let a = loud(levels, speech_level());
    let over = Single { bits: 0x3ba3_d70a };
    assert forall|i: int| 0 <= i implies (#[trigger] quiet(a, i) <==> !over_one_of_five(levels, i)) by {
        if over_one_of_five(levels, i) {
            let j = choose|j: int|
                i <= j < i + 5 && 0 <= j < levels.len() && over.less(#[trigger] levels[j]);
            assert(a[j]);
        } else {
            assert forall|j: int| i <= j <= i + GAP_WIN && 0 <= j < a.len() implies !#[trigger] a[j] by {
                assert(!over.less(levels[j]));
            }
        }
    }
    if run_starts(levels, s) {
        let e = choose|e: int|
            s + 9 <= e < levels.len() && over.less(#[trigger] levels[e]) && bridged(levels, s, e);
        assert forall|j: int|
            s - GAP_WIN - 1 <= j <= s - 1 && 0 <= j < a.len() implies !#[trigger] a[j] by {
            assert(!over.less(levels[j]));
        }
        assert forall|i: int| #![trigger quiet(a, i)] s <= i && i + GAP_WIN <= e implies !quiet(
            a,
            i,
        ) by {
            assert(over_one_of_five(levels, i));
        }
        assert(a[e] && unbroken(a, s, e));
    }
    if speech_at(a, s) {
        let e = choose|e: int|
            s + MIN_WIN - 1 <= e < a.len() && #[trigger] a[e] && unbroken(a, s, e);
        assert forall|i: int| s - 5 <= i < s && 0 <= i implies !over.less(#[trigger] levels[i]) by {
            assert(!a[i]);
        }
        assert forall|i: int| s <= i && i + 4 <= e implies #[trigger] over_one_of_five(levels, i) by {
            assert(!quiet(a, i));
        }
        assert(over.less(levels[e]) && bridged(levels, s, e));
    }
}

/// The trim at the start never cuts behind the windows.
pub proof fn leading_cut_is_inside(a: Seq<bool>, win: nat)
    ensures
        0 <= leading_cut(a, win) <= a.len() * win,
{
    lemma_first_speech_inside(a, 0);
    match first_speech(a, 0) {
        Some(s) => {
            let n = if s < PREROLL_WIN {
                0
            } else {
                s - PREROLL_WIN
            };
            assert(0 <= n * win <= a.len() * win) by (nonlinear_arith)
                requires
                    0 <= n <= a.len(),
                    win >= 0,
            ;
        },
        None => {
            assert(0 <= a.len() * win) by (nonlinear_arith);
        },
    }
}

proof fn lemma_first_speech_inside(a: Seq<bool>, from: int)
    requires
        0 <= from,
    ensures
        first_speech(a, from) matches Some(s) ==> from <= s < a.len(),
    decreases a.len() - from,
{
    if from < a.len() && !speech_at(a, from) {
        lemma_first_speech_inside(a, from + 1);
    }
}

/// The smaller of two numbers is one of them, and neither is below it.
pub proof fn the_least_is_the_smaller(a: int, b: int)
    ensures
        least(a, b) <= a,
        least(a, b) <= b,
        least(a, b) == a || least(a, b) == b,
{
}

} // verus!
