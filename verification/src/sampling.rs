//! How the talker's semantic token and the code predictor's acoustic codes are
//! drawn.
//!
//! What can be drawn, in what order it is considered and what a draw leaves
//! behind is decided here, on the bit patterns of the logits. Scaling,
//! exponentials and running sums are left to the caller, step by step: the
//! caller is told what to compute and hands the outcome back.

use crate::error::{ErrorView, TtsError};
use crate::ieee::{neg_infinity, Double, Single};
use rand::rngs::StdRng;
use rand::{Rng, SeedableRng};
use std::collections::VecDeque;
use vstd::prelude::*;
use vstd::relations::{sorted_by, total_ordering};

verus! {

/// The token that ends an utterance.
pub const CODEC_EOS: u32 = 2150;

/// Semantic codes.
pub const SEMANTIC_VOCAB: usize = 2048;

/// Semantic codes and control tokens.
pub const CODEC_VOCAB: usize = 3072;

/// What the acoustic codes' seed differs by from the talker's.
pub const CODE_STREAM: u64 = 0x9E37_79B9_7F4A_7C15;

/// 0.9 in double precision.
pub const DOUBLE_0_9: u64 = 0x3fec_cccc_cccc_cccd;

/// 0.7 in double precision.
pub const DOUBLE_0_7: u64 = 0x3fe6_6666_6666_6666;

/// 1.0 in double precision.
pub const DOUBLE_1: u64 = 0x3ff0_0000_0000_0000;

/// 0.01 in double precision.
pub const DOUBLE_0_01: u64 = 0x3f84_7ae1_47ae_147b;

/// The least double-precision number no further than 1e-12 from one.
pub const DOUBLE_ABOUT_1_MIN: u64 = 0x3fef_ffff_ffff_dcd1;

/// The greatest double-precision number no further than 1e-12 from one.
pub const DOUBLE_ABOUT_1_MAX: u64 = 0x3ff0_0000_0000_1197;

/// 1.05 in single precision.
pub const SINGLE_1_05: u32 = 0x3f86_6666;

/// 1.1 in single precision.
pub const SINGLE_1_1: u32 = 0x3f8c_cccd;

/// 1.0 in single precision.
pub const SINGLE_1: u32 = 0x3f80_0000;

/// Negative infinity in single precision.
pub const SINGLE_NEG_INF: u32 = 0xff80_0000;

/// How tokens and codes are drawn.
///
/// `Default` is the official model's `generation_config.json` (sampled talker
/// at 0.9 / top-k 50 / no nucleus / repetition 1.05, sampled acoustic codes at
/// the same temperature and top-k). [`SamplerCfg::app`] is what the relay app
/// tuned for itself: a colder talker, nucleus 0.9, a stronger penalty, a
/// repetition-aware redraw and greedy acoustic codes; it is not the official
/// algorithm. [`SamplerCfg::greedy`] removes every random draw.
#[derive(Clone, Copy, Debug)]
pub struct SamplerCfg {
    pub temperature: Double,
    pub top_k: usize,
    pub top_p: Double,
    pub repetition_penalty: Single,
    /// Redraw when the drawn token appeared in the last `n` tokens. Not part
    /// of the official model.
    pub ras_window: Option<usize>,
    pub ras_temperature: Double,
    pub ras_top_p: Double,
    pub min_new_tokens: usize,
    /// Sample the fifteen acoustic codes; `false` takes the argmax of each.
    pub cp_sample: bool,
    pub cp_temperature: Double,
    pub cp_top_k: usize,
    pub cp_top_p: Double,
    pub seed: u64,
}

/// The official values.
pub open spec fn official_cfg() -> SamplerCfg {
    SamplerCfg {
        temperature: Double { bits: DOUBLE_0_9 },
        top_k: 50,
        top_p: Double { bits: DOUBLE_1 },
        repetition_penalty: Single { bits: SINGLE_1_05 },
        ras_window: None,
        ras_temperature: Double { bits: DOUBLE_1 },
        ras_top_p: Double { bits: DOUBLE_0_9 },
        min_new_tokens: 2,
        cp_sample: true,
        cp_temperature: Double { bits: DOUBLE_0_9 },
        cp_top_k: 50,
        cp_top_p: Double { bits: DOUBLE_1 },
        seed: 0,
    }
}

/// The relay app's values.
pub open spec fn app_cfg() -> SamplerCfg {
    SamplerCfg {
        temperature: Double { bits: DOUBLE_0_7 },
        top_k: 50,
        top_p: Double { bits: DOUBLE_0_9 },
        repetition_penalty: Single { bits: SINGLE_1_1 },
        ras_window: Some(10),
        ras_temperature: Double { bits: DOUBLE_1 },
        ras_top_p: Double { bits: DOUBLE_0_9 },
        min_new_tokens: 2,
        cp_sample: false,
        cp_temperature: Double { bits: DOUBLE_1 },
        cp_top_k: 0,
        cp_top_p: Double { bits: DOUBLE_1 },
        seed: 0,
    }
}

impl Default for SamplerCfg {
    /// The official values.
    fn default() -> (r: Self)
        ensures
            r == official_cfg(),
    {
        SamplerCfg {
            temperature: Double { bits: DOUBLE_0_9 },
            top_k: 50,
            top_p: Double { bits: DOUBLE_1 },
            repetition_penalty: Single { bits: SINGLE_1_05 },
            ras_window: None,
            ras_temperature: Double { bits: DOUBLE_1 },
            ras_top_p: Double { bits: DOUBLE_0_9 },
            min_new_tokens: 2,
            cp_sample: true,
            cp_temperature: Double { bits: DOUBLE_0_9 },
            cp_top_k: 50,
            cp_top_p: Double { bits: DOUBLE_1 },
            seed: 0,
        }
    }
}

impl SamplerCfg {
    /// The official `generation_config.json` values. Same as `Default`.
    pub fn official() -> (r: Self)
        ensures
            r == official_cfg(),
    {
        SamplerCfg::default()
    }

    /// The relay app's tuning: colder, nucleus-clipped, penalised harder, with
    /// a repetition-aware redraw and greedy acoustic codes.
    pub fn app() -> (r: Self)
        ensures
            r == app_cfg(),
    {
        SamplerCfg {
            temperature: Double { bits: DOUBLE_0_7 },
            top_k: 50,
            top_p: Double { bits: DOUBLE_0_9 },
            repetition_penalty: Single { bits: SINGLE_1_1 },
            ras_window: Some(10),
            ras_temperature: Double { bits: DOUBLE_1 },
            ras_top_p: Double { bits: DOUBLE_0_9 },
            min_new_tokens: 2,
            cp_sample: false,
            cp_temperature: Double { bits: DOUBLE_1 },
            cp_top_k: 0,
            cp_top_p: Double { bits: DOUBLE_1 },
            seed: 0,
        }
    }

    /// No randomness anywhere: argmax for the talker (after the repetition
    /// penalty, as the official greedy path applies it) and for the codes.
    pub fn greedy() -> (r: Self)
        ensures
            r == (SamplerCfg {
                temperature: Double { bits: 0 },
                cp_sample: false,
                ..official_cfg()
            }),
    {
        let mut cfg: SamplerCfg = SamplerCfg::default();
        cfg.temperature = Double { bits: 0 };
        cfg.cp_sample = false;
        cfg
    }
}

/// The temperature and the two cuts of one draw.
#[derive(Clone, Copy, Debug, PartialEq, Eq, Structural)]
pub struct DrawLaw {
    pub temperature: Double,
    pub top_k: usize,
    pub top_p: Double,
}

/// Whether a temperature changes the logits: it is above zero and further than
/// 1e-12 from one.
pub open spec fn scaling(t: Double) -> bool {
    Double { bits: 0 }.less(t) && !(DOUBLE_ABOUT_1_MIN <= t.bits <= DOUBLE_ABOUT_1_MAX)
}

/// Whether logits are to be divided by the temperature before a draw.
pub fn scales(t: Double) -> (r: bool)
    ensures
        r == scaling(t),
{
    let zero: Double = Double { bits: 0 };
    zero.lt(t) && !(DOUBLE_ABOUT_1_MIN <= t.bits && t.bits <= DOUBLE_ABOUT_1_MAX)
}

/// `i` is the first of the greatest finite entries.
pub open spec fn first_max(l: Seq<Single>, i: int) -> bool {
    &&& 0 <= i < l.len()
    &&& l[i].finite()
    &&& forall|j: int|
        0 <= j < l.len() && (#[trigger] l[j]).finite() ==> if j < i {
            l[j].key() < l[i].key()
        } else {
            l[j].key() <= l[i].key()
        }
}

/// No entry is finite.
pub open spec fn hopeless(l: Seq<Single>) -> bool {
    forall|j: int| 0 <= j < l.len() ==> !(#[trigger] l[j]).finite()
}

/// The index of the greatest finite logit. The first one on ties, the same
/// choice the on-device argmax makes, so that a greedy code drawn here and one
/// taken on the GPU agree.
pub fn argmax(v: &[Single]) -> (r: Result<u32, TtsError>)
    requires
        v.len() <= u32::MAX,
    ensures
        match r {
            Ok(i) => first_max(v@, i as int),
            Err(e) => hopeless(v@) && e@ == ErrorView::Numeric(
                "no finite logits to take the argmax of"@,
            ),
        },
{
    let mut best: Option<usize> = None;
    let mut i: usize = 0;
    while i < v.len()
        invariant
            i <= v.len(),
            match best {
                None => forall|j: int| 0 <= j < i ==> !(#[trigger] v[j]).finite(),
                Some(b) => {
                    &&& b < i
                    &&& v[b as int].finite()
                    &&& forall|j: int|
                        0 <= j < i && (#[trigger] v[j]).finite() ==> if j < b {
                            v[j].key() < v[b as int].key()
                        } else {
                            v[j].key() <= v[b as int].key()
                        }
                },
            },
        decreases v.len() - i,
    {
        if v[i].is_finite() {
            match best {
                None => {
                    best = Some(i);
                },
                Some(b) => {
                    if v[b].lt(v[i]) {
                        best = Some(i);
                    }
                },
            }
        }
        i = i + 1;
    }
    match best {
        Some(b) => Ok(b as u32),
        None => Err(TtsError::Numeric("no finite logits to take the argmax of".to_string())),
    }
}

/// A finite entry as it is sorted: the greater the value the smaller the first
/// number, the index second.
pub open spec fn entry(l: Seq<Single>, i: int) -> (u32, u32) {
    ((u32::MAX - l[i].rank()) as u32, i as u32)
}

/// The finite entries, in the order of their indices.
pub open spec fn entries(l: Seq<Single>) -> Seq<(u32, u32)>
    decreases l.len(),
{
    if l.len() == 0 {
        Seq::empty()
    } else if l.last().finite() {
        entries(l.drop_last()).push(entry(l, l.len() - 1))
    } else {
        entries(l.drop_last())
    }
}

/// By the first number, then by the second.
pub open spec fn in_order(a: (u32, u32), b: (u32, u32)) -> bool {
    a.0 < b.0 || (a.0 == b.0 && a.1 <= b.1)
}

/// The finite entries from the greatest value down, those of the same value by
/// their indices.
pub open spec fn ranked(l: Seq<Single>) -> Seq<(u32, u32)> {
    entries(l).sort_by(|a: (u32, u32), b: (u32, u32)| in_order(a, b))
}

/// The indices of the finite entries, from the greatest value down.
pub open spec fn order_of(l: Seq<Single>) -> Seq<usize> {
    ranked(l).map_values(|p: (u32, u32)| p.1 as usize)
}

/// `slice::sort` on pairs of integers: a permutation, in lexicographic order.
#[verifier::external_body]
fn sort_pairs(v: &mut Vec<(u32, u32)>)
    ensures
        final(v)@.to_multiset() == old(v)@.to_multiset(),
        sorted_by(final(v)@, |a: (u32, u32), b: (u32, u32)| in_order(a, b)),
{
    v.sort();
}

proof fn lemma_entries(l: Seq<Single>, m: Seq<Single>)
    requires
        l.len() <= u32::MAX,
        l.len() <= m.len(),
        l == m.take(l.len() as int),
    ensures
        forall|k: int|
            0 <= k < entries(l).len() ==> {
                let p = #[trigger] entries(l)[k];
                p.1 < l.len() && m[p.1 as int].finite() && p == entry(m, p.1 as int)
            },
        forall|i: int|
            0 <= i < l.len() && (#[trigger] m[i]).finite() ==> entries(l).contains(entry(m, i)),
        entries(l).no_duplicates(),
    decreases l.len(),
{
    if l.len() > 0 {
        let t = l.drop_last();
        assert(t =~= m.take(t.len() as int));
        lemma_entries(t, m);
        let n = l.len() - 1;
        if l.last().finite() {
            assert(entry(l, n) == entry(m, n));
            assert forall|i: int| 0 <= i < l.len() && (#[trigger] m[i]).finite() implies entries(
                l,
            ).contains(entry(m, i)) by {
                if i < n {
                    let k = choose|k: int|
                        0 <= k < entries(t).len() && entries(t)[k] == entry(m, i);
                    assert(entries(l)[k] == entry(m, i));
                } else {
                    assert(entries(l)[entries(t).len() as int] == entry(m, n));
                }
            }
        }
    }
}

proof fn lemma_total_order()
    ensures
        total_ordering(|a: (u32, u32), b: (u32, u32)| in_order(a, b)),
{
}

/// What a sorted arrangement of the finite entries is known by: it is the
/// ranking, it holds the finite entries and nothing else, each once, and the
/// values fall.
proof fn lemma_ranked(l: Seq<Single>)
    requires
        l.len() <= u32::MAX,
    ensures
        forall|k: int|
            0 <= k < ranked(l).len() ==> {
                let p = #[trigger] ranked(l)[k];
                p.1 < l.len() && l[p.1 as int].finite() && p == entry(l, p.1 as int)
            },
        forall|i: int|
            0 <= i < l.len() && (#[trigger] l[i]).finite() ==> ranked(l).contains(entry(l, i)),
        ranked(l).len() == entries(l).len(),
        ranked(l).no_duplicates(),
        forall|j: int, k: int|
            0 <= j < k < ranked(l).len() ==> in_order(#[trigger] ranked(l)[j], #[trigger] ranked(
                l,
            )[k]),
{
    broadcast use vstd::seq_lib::group_to_multiset_ensures;

    let leq = |a: (u32, u32), b: (u32, u32)| in_order(a, b);
    let e = entries(l);
    let r = ranked(l);
    assert(l =~= l.take(l.len() as int));
    lemma_entries(l, l);
    lemma_total_order();
    e.lemma_sort_by_ensures(leq);
    e.lemma_multiset_has_no_duplicates();
    r.lemma_multiset_has_no_duplicates_conv();
    assert(e.to_multiset().len() == e.len() && r.to_multiset().len() == r.len());
    assert forall|k: int| 0 <= k < r.len() implies {
        let p = #[trigger] r[k];
        p.1 < l.len() && l[p.1 as int].finite() && p == entry(l, p.1 as int)
    } by {
        assert(r.contains(r[k]));
        assert(r.to_multiset().count(r[k]) > 0);
        assert(e.contains(r[k]));
    }
    assert forall|i: int| 0 <= i < l.len() && (#[trigger] l[i]).finite() implies r.contains(
        entry(l, i),
    ) by {
        assert(e.contains(entry(l, i)));
        assert(e.to_multiset().count(entry(l, i)) > 0);
    }
    assert forall|j: int, k: int| 0 <= j < k < r.len() implies in_order(
        #[trigger] r[j],
        #[trigger] r[k],
    ) by {
        assert(leq(r[j], r[k]));
    }
}

fn rank_entries(l: &[Single]) -> (r: Vec<(u32, u32)>)
    requires
        l.len() <= u32::MAX,
    ensures
        r@ == ranked(l@),
{
    let mut v: Vec<(u32, u32)> = Vec::new();
    let mut i: usize = 0;
    while i < l.len()
        invariant
            i <= l.len() <= u32::MAX,
            v@ == entries(l@.take(i as int)),
        decreases l.len() - i,
    {
        proof {
            let t = l@.take(i as int + 1);
            assert(t.drop_last() =~= l@.take(i as int));
            assert(t.last() == l@[i as int]);
        }
        if l[i].is_finite() {
            v.push((u32::MAX - l[i].total_rank(), i as u32));
        }
        i = i + 1;
    }
    assert(l@.take(i as int) =~= l@);
    sort_pairs(&mut v);
    proof {
        let leq = |a: (u32, u32), b: (u32, u32)| in_order(a, b);
        lemma_total_order();
        entries(l@).lemma_sort_by_ensures(leq);
        vstd::seq_lib::lemma_sorted_unique(v@, ranked(l@), leq);
    }
    v
}

/// `l` without the entries below the `k`-th greatest finite one. Nothing is
/// taken away where `k` is 0 or not below the number of entries or of finite
/// ones.
pub open spec fn top_k_of(l: Seq<Single>, k: int) -> Seq<Single> {
    if 0 < k < l.len() && k < ranked(l).len() {
        let least = l[ranked(l)[k - 1].1 as int];
        l.map_values(
            |v: Single|
                if v.less(least) {
                    neg_infinity()
                } else {
                    v
                },
        )
    } else {
        l
    }
}

/// Masks what is below the `k`-th greatest finite logit.
pub fn top_k_filter(l: &[Single], k: usize) -> (r: Vec<Single>)
    requires
        l.len() <= u32::MAX,
    ensures
        r@ == top_k_of(l@, k as int),
{
    if k > 0 && k < l.len() {
        let order: Vec<(u32, u32)> = rank_entries(l);
        if order.len() > k {
            proof {
                lemma_ranked(l@);
                assert(ranked(l@)[k - 1].1 < l.len());
            }
            let least: Single = l[order[k - 1].1 as usize];
            let mut out: Vec<Single> = Vec::new();
            let mut i: usize = 0;
            while i < l.len()
                invariant
                    i <= l.len(),
                    out@ =~= l@.take(i as int).map_values(
                        |v: Single|
                            if v.less(least) {
                                neg_infinity()
                            } else {
                                v
                            },
                    ),
                decreases l.len() - i,
            {
                if l[i].lt(least) {
                    out.push(Single { bits: SINGLE_NEG_INF });
                } else {
                    out.push(l[i]);
                }
                i = i + 1;
            }
            assert(l@.take(i as int) =~= l@);
            return out;
        }
    }
    let out: Vec<Single> = vstd::slice::slice_to_vec(l);
    assert(out@ =~= l@);
    out
}

/// What a draw asks for next.
#[derive(Debug)]
pub enum DrawStep {
    /// The draw is over.
    Token(u32),
    /// The nucleus is to be found: the caller sums up the softmax along `order`
    /// for [`draw_clip`].
    Nucleus { logits: Vec<Single>, order: Vec<usize> },
    /// The caller sums up the weights for [`draw_end`].
    Weigh { logits: Vec<Single> },
}

/// [`DrawStep`] with its lists as sequences.
pub enum StepView {
    Token(u32),
    Nucleus { logits: Seq<Single>, order: Seq<usize> },
    Weigh { logits: Seq<Single> },
}

impl View for DrawStep {
    type V = StepView;

    open spec fn view(&self) -> StepView {
        match *self {
            DrawStep::Token(t) => StepView::Token(t),
            DrawStep::Nucleus { logits, order } => StepView::Nucleus {
                logits: logits@,
                order: order@,
            },
            DrawStep::Weigh { logits } => StepView::Weigh { logits: logits@ },
        }
    }
}

/// A temperature so low that the draw is an argmax.
pub open spec fn frozen(t: Double) -> bool {
    t.less(Double { bits: DOUBLE_0_01 })
}

/// A share of the probability mass that leaves something out.
pub open spec fn clipping(p: Double) -> bool {
    Double { bits: 0 }.less(p) && p.less(Double { bits: DOUBLE_1 })
}

/// Why nothing can be drawn from scaled logits, if nothing can: none of them is
/// finite.
pub open spec fn draw_error(scaled: Seq<Single>, law: DrawLaw) -> Option<ErrorView> {
    if !hopeless(scaled) {
        None
    } else if frozen(law.temperature) {
        Some(ErrorView::Numeric("no finite logits to take the argmax of"@))
    } else {
        Some(ErrorView::Numeric("no finite logits to sample from"@))
    }
}

/// What a draw that is not frozen asks for: what is below the `top_k`-th
/// greatest logit is masked.
pub open spec fn asked_of(scaled: Seq<Single>, law: DrawLaw) -> StepView {
    let l = top_k_of(scaled, law.top_k as int);
    if clipping(law.top_p) {
        StepView::Nucleus { logits: l, order: order_of(l) }
    } else {
        StepView::Weigh { logits: l }
    }
}

/// The cut to the `k` greatest logits leaves a finite one exactly where there
/// was one.
pub proof fn the_cut_leaves_a_logit(l: Seq<Single>, k: int)
    requires
        l.len() <= u32::MAX,
    ensures
        hopeless(top_k_of(l, k)) <==> hopeless(l),
{
    lemma_ranked(l);
    let cut = top_k_of(l, k);
    if 0 < k < l.len() && k < ranked(l).len() {
        let at = ranked(l)[k - 1].1 as int;
        assert(l[at].finite() && cut[at] == l[at]);
    }
}

/// The first part of a draw from logits that were scaled already.
///
/// A frozen temperature takes the argmax. Otherwise what is below the
/// `top_k`-th greatest is masked, and what is left is either clipped to its
/// nucleus or weighed as it is. Without a finite logit there is nothing to
/// draw.
pub fn draw_start(scaled: &[Single], law: &DrawLaw) -> (r: Result<DrawStep, TtsError>)
    requires
        scaled.len() <= u32::MAX,
    ensures
        match r {
            Ok(step) => {
                &&& draw_error(scaled@, *law) is None
                &&& if frozen(law.temperature) {
                    step@ matches StepView::Token(i) && first_max(scaled@, i as int)
                } else {
                    step@ == asked_of(scaled@, *law)
                }
            },
            Err(e) => draw_error(scaled@, *law) == Some(e@),
        },
{
    let cold: Double = Double { bits: DOUBLE_0_01 };
    if law.temperature.lt(cold) {
        let i: u32 = argmax(scaled)?;
        return Ok(DrawStep::Token(i));
    }
    let logits: Vec<Single> = top_k_filter(scaled, law.top_k);
    let entries_left: Vec<(u32, u32)> = rank_entries(logits.as_slice());
    proof {
        the_cut_leaves_a_logit(scaled@, law.top_k as int);
        lemma_ranked(logits@);
        if entries_left.len() == 0 {
            assert forall|j: int| 0 <= j < logits@.len() implies !(#[trigger] logits@[j]).finite() by {
                if logits@[j].finite() {
                    assert(ranked(logits@).contains(entry(logits@, j)));
                }
            }
        } else {
            assert(logits@[ranked(logits@)[0].1 as int].finite());
        }
    }
    if entries_left.len() == 0 {
        return Err(TtsError::Numeric("no finite logits to sample from".to_string()));
    }
    let zero: Double = Double { bits: 0 };
    let one: Double = Double { bits: DOUBLE_1 };
    if zero.lt(law.top_p) && law.top_p.lt(one) {
        let mut order: Vec<usize> = Vec::new();
        let mut i: usize = 0;
        while i < entries_left.len()
            invariant
                i <= entries_left.len(),
                order@ =~= entries_left@.take(i as int).map_values(
                    |p: (u32, u32)| p.1 as usize,
                ),
            decreases entries_left.len() - i,
        {
            order.push(entries_left[i].1 as usize);
            i = i + 1;
        }
        assert(entries_left@.take(i as int) =~= entries_left@);
        Ok(DrawStep::Nucleus { logits, order })
    } else {
        Ok(DrawStep::Weigh { logits })
    }
}

/// `l` with the entries at the given places masked.
pub open spec fn masked(l: Seq<Single>, places: Seq<usize>) -> Seq<Single>
    decreases places.len(),
{
    if places.len() == 0 {
        l
    } else {
        masked(l, places.drop_last()).update(places.last() as int, neg_infinity())
    }
}

/// How many entries the nucleus takes: up to the first at which the running
/// share of the probability is over `top_p`, that one included, or all of them.
pub open spec fn nucleus_of(shares: Seq<Single>, top_p: Single, from: int) -> int
    decreases shares.len() - from,
{
    if from >= shares.len() {
        shares.len() as int
    } else if top_p.less(shares[from]) {
        from + 1
    } else {
        nucleus_of(shares, top_p, from + 1)
    }
}

/// The logits that are left behind the nucleus.
pub open spec fn clipped(
    logits: Seq<Single>,
    order: Seq<usize>,
    shares: Seq<Single>,
    top_p: Single,
) -> Seq<Single> {
    masked(logits, order.skip(nucleus_of(shares, top_p, 0)))
}

/// The part of a draw behind the nucleus: what of `order` is outside of it is
/// masked. `shares` holds, along `order`, the running sums of the softmax.
pub fn draw_clip(logits: Vec<Single>, order: &[usize], shares: &[Single], top_p: Single) -> (r: Vec<
    Single,
>)
    requires
        shares.len() == order.len(),
        forall|k: int| 0 <= k < order.len() ==> #[trigger] order[k] < logits.len(),
    ensures
        r@ == clipped(logits@, order@, shares@, top_p),
{
    let mut cutoff: usize = 0;
    let mut inside: bool = true;
    while inside && cutoff < shares.len()
        invariant
            cutoff <= shares.len(),
            inside ==> nucleus_of(shares@, top_p, 0) == nucleus_of(shares@, top_p, cutoff as int),
            !inside ==> nucleus_of(shares@, top_p, 0) == cutoff,
        decreases shares.len() - cutoff,
    {
        if top_p.lt(shares[cutoff]) {
            inside = false;
        }
        cutoff = cutoff + 1;
    }
    let mut l: Vec<Single> = logits;
    let ghost start: Seq<Single> = l@;
    let ghost tail: Seq<usize> = order@.skip(cutoff as int);
    let mut k: usize = cutoff;
    assert(tail.take(0) =~= Seq::empty());
    while k < order.len()
        invariant
            cutoff <= k <= order.len(),
            l.len() == start.len(),
            tail == order@.skip(cutoff as int),
            forall|k: int| 0 <= k < order.len() ==> #[trigger] order[k] < start.len(),
            l@ == masked(start, tail.take(k - cutoff)),
        decreases order.len() - k,
    {
        proof {
            let t = tail.take(k - cutoff + 1);
            assert(t.drop_last() =~= tail.take(k - cutoff));
            assert(t.last() == order@[k as int]);
        }
        let at: usize = order[k];
        l.set(at, Single { bits: SINGLE_NEG_INF });
        k = k + 1;
    }
    assert(tail.take(k - cutoff) =~= tail);
    l
}

/// `sum >= mark` as numbers; false where either is not a number.
pub open spec fn reaches(sum: Single, mark: Single) -> bool {
    !sum.nan() && !mark.nan() && mark.key() <= sum.key()
}

/// The first entry from `from` on whose running sum of weights reaches a mark.
/// An entry that is not finite weighs nothing: its sum is the one before it, so
/// that it is passed over. The very first entry has none before it; a mark of
/// zero takes it whatever it weighs.
pub open spec fn first_reaching(
    logits: Seq<Single>,
    sums: Seq<Single>,
    mark: Single,
    from: int,
) -> Option<int>
    decreases logits.len() - from,
{
    if from >= logits.len() {
        None
    } else if reaches(sums[from], mark) && (from == 0 || logits[from].finite()) {
        Some(from)
    } else {
        first_reaching(logits, sums, mark, from + 1)
    }
}

/// The end of a draw: the entry at which the running sum of the weights reaches
/// the random mark, or the argmax where rounding kept it below. `sums` holds
/// the running sums of the weights of `logits`.
pub fn draw_end(logits: &[Single], sums: &[Single], mark: Single) -> (r: Result<u32, TtsError>)
    requires
        sums.len() == logits.len() <= u32::MAX,
    ensures
        match (first_reaching(logits@, sums@, mark, 0), r) {
            (Some(i), Ok(t)) => t == i,
            (Some(_), Err(_)) => false,
            (None, Ok(t)) => first_max(logits@, t as int),
            (None, Err(e)) => hopeless(logits@) && e@ == ErrorView::Numeric(
                "no finite logits to take the argmax of"@,
            ),
        },
{
    let mut i: usize = 0;
    while i < logits.len()
        invariant
            i <= logits.len() == sums.len() <= u32::MAX,
            first_reaching(logits@, sums@, mark, 0) == first_reaching(
                logits@,
                sums@,
                mark,
                i as int,
            ),
        decreases logits.len() - i,
    {
        let sum: Single = sums[i];
        if !sum.is_nan() && !mark.is_nan() && !sum.lt(mark) && (i == 0 || logits[i].is_finite()) {
            return Ok(i as u32);
        }
        i = i + 1;
    }
    argmax(logits)
}

/// Logits without the end of speech.
pub open spec fn endless(logits: Seq<Single>) -> Seq<Single> {
    if CODEC_EOS < logits.len() {
        logits.update(CODEC_EOS as int, neg_infinity())
    } else {
        logits
    }
}

/// The logits with the end of speech masked, for a frame that must not end the
/// utterance.
pub fn without_end(logits: &[Single]) -> (r: Vec<Single>)
    ensures
        r@ == endless(logits@),
{
    let mut out: Vec<Single> = vstd::slice::slice_to_vec(logits);
    assert(out@ =~= logits@);
    if (CODEC_EOS as usize) < out.len() {
        out.set(CODEC_EOS as usize, Single { bits: SINGLE_NEG_INF });
    }
    out
}

/// Logits once they were penalised and scaled: what was not finite before stays
/// as it was.
pub open spec fn held(base: Seq<Single>, scaled: Seq<Single>) -> Seq<Single> {
    Seq::new(
        base.len(),
        |i: int|
            if base[i].finite() {
                scaled[i]
            } else {
                base[i]
            },
    )
}

fn hold(base: &[Single], scaled: &[Single]) -> (r: Vec<Single>)
    requires
        base.len() == scaled.len(),
    ensures
        r@ == held(base@, scaled@),
{
    let mut out: Vec<Single> = Vec::new();
    let mut i: usize = 0;
    while i < base.len()
        invariant
            i <= base.len() == scaled.len(),
            out@ =~= held(base@, scaled@).take(i as int),
        decreases base.len() - i,
    {
        if base[i].is_finite() {
            out.push(scaled[i]);
        } else {
            out.push(base[i]);
        }
        i = i + 1;
    }
    assert(out@ =~= held(base@, scaled@));
    out
}

/// The generator of `rand`, opaque here.
#[verifier::external_type_specification]
#[verifier::external_body]
pub struct ExStdRng(rand::rngs::StdRng);

/// The seed a generator was made from.
pub uninterp spec fn rng_seed(rng: StdRng) -> u64;

/// How many words a generator has handed out.
pub uninterp spec fn rng_drawn(rng: StdRng) -> nat;

/// The `i`-th 32-bit word of the stream that a seed stands for.
pub uninterp spec fn seeded_word(seed: u64, i: nat) -> u32;

/// `StdRng::seed_from_u64`: a generator at the start of the seed's stream.
#[verifier::external_body]
fn seed_rng(seed: u64) -> (r: StdRng)
    ensures
        rng_seed(r) == seed,
        rng_drawn(r) == 0,
{
    StdRng::seed_from_u64(seed)
}

/// `Rng::gen` for `u32`: the next word of the stream, which is a function of
/// the seed and of how many words came before.
#[verifier::external_body]
fn next_word(rng: &mut StdRng) -> (r: u32)
    ensures
        r == seeded_word(rng_seed(*old(rng)), rng_drawn(*old(rng))),
        rng_seed(*final(rng)) == rng_seed(*old(rng)),
        rng_drawn(*final(rng)) == rng_drawn(*old(rng)) + 1,
{
    rng.gen::<u32>()
}

/// What the repetition penalty does to a logit.
#[derive(Clone, Copy, Debug, PartialEq, Eq, Structural)]
pub enum Penalty {
    /// Leaves it.
    Keep,
    /// Divides it: it is above zero.
    Divide,
    /// Multiplies it: it is not.
    Multiply,
}

/// The state of a sampler.
pub struct SamplerView {
    pub cfg: SamplerCfg,
    /// Words the talker's stream has given.
    pub talker_drawn: nat,
    /// Words the acoustic codes' stream has given.
    pub codes_drawn: nat,
    /// Whether a token was drawn before.
    pub seen: Seq<bool>,
    /// The last tokens, the newest at the end.
    pub recent: Seq<u32>,
    /// Tokens so far.
    pub count: nat,
}

/// The last `n` of `s`.
pub open spec fn newest(s: Seq<u32>, n: nat) -> Seq<u32> {
    if s.len() <= n {
        s
    } else {
        s.skip(s.len() - n)
    }
}

/// Whether a token may be drawn: a semantic code, or the end where enough
/// tokens came before it.
pub open spec fn legal(s: SamplerView, i: int) -> bool {
    i < SEMANTIC_VOCAB || (i == CODEC_EOS && s.count >= s.cfg.min_new_tokens)
}

/// The logits with everything masked that must not be drawn.
pub open spec fn base_of(s: SamplerView, logits: Seq<Single>) -> Seq<Single> {
    Seq::new(
        if logits.len() < CODEC_VOCAB {
            logits.len()
        } else {
            CODEC_VOCAB as nat
        },
        |i: int|
            if legal(s, i) {
                logits[i]
            } else {
                neg_infinity()
            },
    )
}

/// Whether a repetition penalty changes anything: it is a number other than
/// one.
pub open spec fn penalizing(p: Single) -> bool {
    !p.nan() && p.bits != SINGLE_1
}

/// What the repetition penalty does to each logit: it acts on the finite ones
/// of tokens that were drawn before.
pub open spec fn penalties_of(s: SamplerView, base: Seq<Single>) -> Seq<Penalty> {
    Seq::new(
        base.len(),
        |i: int|
            if penalizing(s.cfg.repetition_penalty) && s.seen[i] && base[i].finite() {
                if base[i].key() > 0 {
                    Penalty::Divide
                } else {
                    Penalty::Multiply
                }
            } else {
                Penalty::Keep
            },
    )
}

/// The law of the talker's first draw.
pub open spec fn talker_law(cfg: SamplerCfg) -> DrawLaw {
    DrawLaw { temperature: cfg.temperature, top_k: cfg.top_k, top_p: cfg.top_p }
}

/// The law of the redraw.
pub open spec fn redraw_law(cfg: SamplerCfg) -> DrawLaw {
    DrawLaw { temperature: cfg.ras_temperature, top_k: 0, top_p: cfg.ras_top_p }
}

/// The law of an acoustic code's draw.
pub open spec fn code_law(cfg: SamplerCfg) -> DrawLaw {
    DrawLaw { temperature: cfg.cp_temperature, top_k: cfg.cp_top_k, top_p: cfg.cp_top_p }
}

/// What there is to do for the next token: penalise `base` as `penalties`
/// says, draw by `law`, ask whether to redraw from `base`, accept.
#[derive(Debug)]
pub struct TokenPlan {
    pub base: Vec<Single>,
    pub penalties: Vec<Penalty>,
    pub law: DrawLaw,
}

/// How an acoustic code comes about.
#[derive(Debug)]
pub enum CodeStep {
    /// It is the argmax, which is here.
    Code(u32),
    /// It is drawn by this law.
    Draw(DrawLaw),
}

/// The draws of one utterance: two streams of random words and a memory of
/// what was drawn.
pub struct Sampler {
    cfg: SamplerCfg,
    rng: StdRng,
    // The acoustic codes draw from their own stream so that switching them
    // between greedy and sampled leaves the talker's sequence for a seed
    // unchanged.
    cp_rng: StdRng,
    seen: Vec<bool>,
    ras_recent: VecDeque<u32>,
    token_count: usize,
}

impl View for Sampler {
    type V = SamplerView;

    closed spec fn view(&self) -> SamplerView {
        SamplerView {
            cfg: self.cfg,
            talker_drawn: rng_drawn(self.rng),
            codes_drawn: rng_drawn(self.cp_rng),
            seen: self.seen@,
            recent: self.ras_recent@,
            count: self.token_count as nat,
        }
    }
}

impl Sampler {
    /// Both streams stand for the seed, the memory covers the vocabulary, and
    /// no more tokens are remembered than the window asks for.
    pub closed spec fn wf(&self) -> bool {
        &&& rng_seed(self.rng) == self.cfg.seed
        &&& rng_seed(self.cp_rng) == self.cfg.seed ^ CODE_STREAM
        &&& self.seen@.len() == CODEC_VOCAB
        &&& self.ras_recent@.len() <= match self.cfg.ras_window {
            Some(n) => n as int,
            None => 0,
        }
    }

    /// The memory covers the vocabulary, and no more tokens are remembered than
    /// the window asks for.
    pub proof fn memory_is_bounded(&self)
        requires
            self.wf(),
        ensures
            self@.seen.len() == CODEC_VOCAB,
            self@.recent.len() <= match self@.cfg.ras_window {
                Some(n) => n as int,
                None => 0,
            },
            self@.count <= usize::MAX,
    {
    }

    /// A sampler at the start of an utterance.
    pub fn new(cfg: SamplerCfg) -> (r: Self)
        ensures
            r.wf(),
            r@ == (SamplerView {
                cfg,
                talker_drawn: 0,
                codes_drawn: 0,
                seen: Seq::new(CODEC_VOCAB as nat, |i: int| false),
                recent: Seq::empty(),
                count: 0,
            }),
    {
        let r = Sampler {
            cfg,
            rng: seed_rng(cfg.seed),
            cp_rng: seed_rng(cfg.seed ^ CODE_STREAM),
            seen: vec![false; CODEC_VOCAB],
            ras_recent: VecDeque::new(),
            token_count: 0,
        };
        assert(r@.seen =~= Seq::new(CODEC_VOCAB as nat, |i: int| false));
        assert(r@.recent =~= Seq::empty());
        r
    }

    /// The configuration.
    pub fn cfg(&self) -> (r: &SamplerCfg)
        ensures
            *r == self@.cfg,
    {
        &self.cfg
    }

    /// Plans the next token: suppression (only semantic codes and the end are
    /// legal), the end kept out of the first tokens, the
    /// repetition penalty over tokens seen before, and the law to draw by.
    pub fn next_token(&self, logits: &[Single]) -> (r: TokenPlan)
        requires
            self.wf(),
            self@.count < self@.cfg.min_new_tokens ==> logits.len() > CODEC_EOS,
        ensures
            r.base@ == base_of(self@, logits@),
            r.penalties@ == penalties_of(self@, r.base@),
            r.law == talker_law(self@.cfg),
            r.law.temperature == self@.cfg.temperature,
            r.law.top_k == self@.cfg.top_k,
            r.law.top_p == self@.cfg.top_p,
    {
        let n: usize = if logits.len() < CODEC_VOCAB {
            logits.len()
        } else {
            CODEC_VOCAB
        };
        let ending: bool = self.token_count >= self.cfg.min_new_tokens;
        let active: bool = !self.cfg.repetition_penalty.is_nan()
            && self.cfg.repetition_penalty.bits != SINGLE_1;
        let zero: Single = Single { bits: 0 };
        let mut base: Vec<Single> = Vec::new();
        let mut penalties: Vec<Penalty> = Vec::new();
        let mut i: usize = 0;
        while i < n
            invariant
                self.wf(),
                i <= n <= logits.len(),
                n <= CODEC_VOCAB,
                n == base_of(self@, logits@).len(),
                zero == (Single { bits: 0 }),
                ending == (self@.count >= self@.cfg.min_new_tokens),
                active == penalizing(self@.cfg.repetition_penalty),
                base@ =~= base_of(self@, logits@).take(i as int),
                penalties@ =~= penalties_of(self@, base_of(self@, logits@)).take(i as int),
            decreases n - i,
        {
            let v: Single = if i < SEMANTIC_VOCAB || (i == CODEC_EOS as usize && ending) {
                logits[i]
            } else {
                Single { bits: SINGLE_NEG_INF }
            };
            let p: Penalty = if active && self.seen[i] && v.is_finite() {
                if zero.lt(v) {
                    Penalty::Divide
                } else {
                    Penalty::Multiply
                }
            } else {
                Penalty::Keep
            };
            base.push(v);
            penalties.push(p);
            i = i + 1;
        }
        TokenPlan {
            base,
            penalties,
            law: DrawLaw {
                temperature: self.cfg.temperature,
                top_k: self.cfg.top_k,
                top_p: self.cfg.top_p,
            },
        }
    }

    /// The law to redraw a token by, where it came up among the last ones and
    /// is not the end.
    pub fn redraw(&self, tok: u32) -> (r: Option<DrawLaw>)
        requires
            self.wf(),
        ensures
            r == if self@.cfg.ras_window is Some && self@.recent.contains(tok) && tok != CODEC_EOS {
                Some(redraw_law(self@.cfg))
            } else {
                None
            },
            r matches Some(law) ==> {
                &&& law.temperature == self@.cfg.ras_temperature
                &&& law.top_k == 0
                &&& law.top_p == self@.cfg.ras_top_p
            },
    {
        if self.cfg.ras_window.is_none() || tok == CODEC_EOS {
            return None;
        }
        let mut i: usize = 0;
        while i < self.ras_recent.len()
            invariant
                i <= self.ras_recent@.len(),
                self.cfg.ras_window is Some,
                tok != CODEC_EOS,
                forall|k: int| 0 <= k < i ==> self.ras_recent@[k] != tok,
            decreases self.ras_recent@.len() - i,
        {
            if self.ras_recent[i] == tok {
                assert(self.ras_recent@.contains(tok));
                return Some(
                    DrawLaw {
                        temperature: self.cfg.ras_temperature,
                        top_k: 0,
                        top_p: self.cfg.ras_top_p,
                    },
                );
            }
            i = i + 1;
        }
        None
    }

    /// Remembers a token as drawn.
    pub fn accept(&mut self, tok: u32)
        requires
            old(self).wf(),
            tok < CODEC_VOCAB,
            old(self)@.count < usize::MAX,
        ensures
            final(self).wf(),
            final(self)@ == (SamplerView {
                seen: old(self)@.seen.update(tok as int, true),
                recent: match old(self)@.cfg.ras_window {
                    Some(n) => newest(old(self)@.recent.push(tok), n as nat),
                    None => old(self)@.recent,
                },
                count: old(self)@.count + 1,
                ..old(self)@
            }),
    {
        let ghost before: Seq<u32> = self.ras_recent@;
        match self.cfg.ras_window {
            Some(n) => {
                self.ras_recent.push_back(tok);
                if self.ras_recent.len() > n {
                    let _ = self.ras_recent.pop_front();
                }
                assert(self.ras_recent@ =~= newest(before.push(tok), n as nat));
            },
            None => {},
        }
        self.seen.set(tok as usize, true);
        self.token_count = self.token_count + 1;
    }

    /// How the next acoustic code comes about, given a group's logits.
    pub fn next_code(&self, logits: &[Single]) -> (r: Result<CodeStep, TtsError>)
        requires
            logits.len() <= u32::MAX,
        ensures
            match r {
                Ok(CodeStep::Code(c)) => !self@.cfg.cp_sample && first_max(logits@, c as int),
                Ok(CodeStep::Draw(law)) => self@.cfg.cp_sample && law == code_law(self@.cfg),
                Err(e) => !self@.cfg.cp_sample && hopeless(logits@) && e@ == ErrorView::Numeric(
                    "no finite logits to take the argmax of"@,
                ),
            },
            r matches Ok(CodeStep::Draw(law)) ==> {
                &&& law.temperature == self@.cfg.cp_temperature
                &&& law.top_k == self@.cfg.cp_top_k
                &&& law.top_p == self@.cfg.cp_top_p
            },
    {
        if !self.cfg.cp_sample {
            let c: u32 = argmax(logits)?;
            return Ok(CodeStep::Code(c));
        }
        Ok(
            CodeStep::Draw(
                DrawLaw {
                    temperature: self.cfg.cp_temperature,
                    top_k: self.cfg.cp_top_k,
                    top_p: self.cfg.cp_top_p,
                },
            ),
        )
    }

    /// Starts the draw of a token from the logits of a plan and what they were
    /// penalised and scaled to: what [`draw_start`] asks for, and the random
    /// number that the weights are held against, where they are. A draw that
    /// fails takes nothing from the stream, and neither does an argmax.
    pub fn draw_token(&mut self, base: &[Single], scaled: &[Single], law: &DrawLaw) -> (r: Result<
        (DrawStep, Option<u32>),
        TtsError,
    >)
        requires
            old(self).wf(),
            base.len() == scaled.len() <= u32::MAX,
        ensures
            final(self).wf(),
            match r {
                Ok((step, threshold)) => {
                    &&& draw_error(held(base@, scaled@), *law) is None
                    &&& if frozen(law.temperature) {
                        &&& step@ matches StepView::Token(i)
                        &&& first_max(held(base@, scaled@), i as int)
                        &&& threshold is None
                        &&& final(self)@ == old(self)@
                    } else {
                        &&& step@ == asked_of(held(base@, scaled@), *law)
                        &&& threshold == Some(
                            (seeded_word(old(self)@.cfg.seed, old(self)@.talker_drawn) / 256) as u32,
                        )
                        &&& final(self)@ == (SamplerView {
                            talker_drawn: old(self)@.talker_drawn + 1,
                            ..old(self)@
                        })
                    }
                },
                Err(e) => draw_error(held(base@, scaled@), *law) == Some(e@) && final(self)@ == old(self)@,
            },
    {
        let l: Vec<Single> = hold(base, scaled);
        let step: DrawStep = draw_start(l.as_slice(), law)?;
        match step {
            DrawStep::Token(t) => Ok((DrawStep::Token(t), None)),
            other => {
                let threshold: u32 = self.token_threshold();
                Ok((other, Some(threshold)))
            },
        }
    }

    /// Starts the draw of an acoustic code, as [`Self::draw_token`] does that of
    /// a token, on the codes' own stream.
    pub fn draw_code(&mut self, scaled: &[Single], law: &DrawLaw) -> (r: Result<
        (DrawStep, Option<u32>),
        TtsError,
    >)
        requires
            old(self).wf(),
            scaled.len() <= u32::MAX,
        ensures
            final(self).wf(),
            match r {
                Ok((step, threshold)) => {
                    &&& draw_error(scaled@, *law) is None
                    &&& if frozen(law.temperature) {
                        &&& step@ matches StepView::Token(i)
                        &&& first_max(scaled@, i as int)
                        &&& threshold is None
                        &&& final(self)@ == old(self)@
                    } else {
                        &&& step@ == asked_of(scaled@, *law)
                        &&& threshold == Some(
                            (seeded_word(
                                old(self)@.cfg.seed ^ CODE_STREAM,
                                old(self)@.codes_drawn,
                            ) / 256) as u32,
                        )
                        &&& final(self)@ == (SamplerView {
                            codes_drawn: old(self)@.codes_drawn + 1,
                            ..old(self)@
                        })
                    }
                },
                Err(e) => draw_error(scaled@, *law) == Some(e@) && final(self)@ == old(self)@,
            },
    {
        let step: DrawStep = draw_start(scaled, law)?;
        match step {
            DrawStep::Token(t) => Ok((DrawStep::Token(t), None)),
            other => {
                let threshold: u32 = self.code_threshold();
                Ok((other, Some(threshold)))
            },
        }
    }

    /// The random number of a token's draw, in units of 2 to the power of -24:
    /// the upper 24 bits of the next word of the talker's stream.
    pub fn token_threshold(&mut self) -> (r: u32)
        requires
            old(self).wf(),
        ensures
            final(self).wf(),
            r == seeded_word(old(self)@.cfg.seed, old(self)@.talker_drawn) / 256,
            r < 0x100_0000,
            final(self)@ == (SamplerView {
                talker_drawn: old(self)@.talker_drawn + 1,
                ..old(self)@
            }),
    {
        next_word(&mut self.rng) / 256
    }

    /// The random number of an acoustic code's draw, in units of 2 to the
    /// power of -24: the upper 24 bits of the next word of the codes' stream.
    pub fn code_threshold(&mut self) -> (r: u32)
        requires
            old(self).wf(),
        ensures
            final(self).wf(),
            r == seeded_word(old(self)@.cfg.seed ^ CODE_STREAM, old(self)@.codes_drawn) / 256,
            r < 0x100_0000,
            final(self)@ == (SamplerView {
                codes_drawn: old(self)@.codes_drawn + 1,
                ..old(self)@
            }),
    {
        next_word(&mut self.cp_rng) / 256
    }
}

/// What is left of the logits when the weights are summed up.
pub open spec fn kept_of(l: Seq<Single>, law: DrawLaw, shares: Seq<Single>, top_p: Single) -> Seq<
    Single,
> {
    match asked_of(l, law) {
        StepView::Token(_) => l,
        StepView::Nucleus { logits, order } => clipped(logits, order, shares, top_p),
        StepView::Weigh { logits } => logits,
    }
}

/// `t` comes out of a draw from `l`: an argmax where the temperature is frozen,
/// otherwise the entry that the random mark picks, or the argmax of what is
/// left where it picks none. `shares`, `sums` and the mark are the running
/// shares, the running sums of the weights and the random number's part of
/// them, whatever they are.
pub open spec fn drawn(
    l: Seq<Single>,
    law: DrawLaw,
    shares: Seq<Single>,
    top_p: Single,
    sums: Seq<Single>,
    mark: Single,
    t: int,
) -> bool {
    &&& draw_error(l, law) is None
    &&& if frozen(law.temperature) {
        first_max(l, t)
    } else {
        let kept = kept_of(l, law, shares, top_p);
        match first_reaching(kept, sums, mark, 0) {
            Some(i) => t == i,
            None => first_max(kept, t),
        }
    }
}

/// Every token that is drawn is legal: a semantic code, or the end once enough
/// tokens came before it. `scaled` is what the logits of the plan were
/// penalised and scaled to, whatever that is, and the draw may be the first or
/// the redraw.
pub proof fn only_legal_tokens_are_drawn(
    s: SamplerView,
    logits: Seq<Single>,
    scaled: Seq<Single>,
    law: DrawLaw,
    shares: Seq<Single>,
    top_p: Single,
    sums: Seq<Single>,
    mark: Single,
    t: int,
)
    requires
        drawn(held(base_of(s, logits), scaled), law, shares, top_p, sums, mark, t),
        shares.len() == order_of(
            top_k_of(held(base_of(s, logits), scaled), law.top_k as int),
        ).len(),
    ensures
        0 <= t < CODEC_VOCAB,
        t < SEMANTIC_VOCAB || t == CODEC_EOS,
        s.count < s.cfg.min_new_tokens ==> t != CODEC_EOS,
        legal(s, t),
{
    lemma_drawn(held(base_of(s, logits), scaled), law, shares, top_p, sums, mark, t);
}

/// A token that is drawn while the end is masked is not the end.
pub proof fn masked_ends_are_not_drawn(
    s: SamplerView,
    logits: Seq<Single>,
    scaled: Seq<Single>,
    law: DrawLaw,
    shares: Seq<Single>,
    top_p: Single,
    sums: Seq<Single>,
    mark: Single,
    t: int,
)
    requires
        drawn(held(base_of(s, endless(logits)), scaled), law, shares, top_p, sums, mark, t),
        shares.len() == order_of(
            top_k_of(held(base_of(s, endless(logits)), scaled), law.top_k as int),
        ).len(),
    ensures
        t != CODEC_EOS,
{
    lemma_drawn(held(base_of(s, endless(logits)), scaled), law, shares, top_p, sums, mark, t);
}

/// Where no legal logit is finite a token's draw fails, by whatever law, and
/// where one stays finite it does not.
pub proof fn nothing_legal_is_an_error(
    s: SamplerView,
    logits: Seq<Single>,
    scaled: Seq<Single>,
    law: DrawLaw,
)
    ensures
        (forall|i: int| 0 <= i < logits.len() && legal(s, i) ==> !(#[trigger] logits[i]).finite())
            ==> (draw_error(held(base_of(s, logits), scaled), law) matches Some(e) && e is Numeric),
        (exists|i: int|
            0 <= i < logits.len() && i < CODEC_VOCAB && legal(s, i) && (#[trigger] logits[i])
                .finite() && scaled[i].finite()) ==> draw_error(
            held(base_of(s, logits), scaled),
            law,
        ) is None,
{
    let base = base_of(s, logits);
    let l = held(base, scaled);
    if forall|i: int| 0 <= i < logits.len() && legal(s, i) ==> !(#[trigger] logits[i]).finite() {
        assert forall|j: int| 0 <= j < l.len() implies !(#[trigger] l[j]).finite() by {
            assert(legal(s, j) ==> !logits[j].finite());
        }
    }
    if exists|i: int|
        0 <= i < logits.len() && i < CODEC_VOCAB && legal(s, i) && (#[trigger] logits[i]).finite()
            && scaled[i].finite() {
        let i = choose|i: int|
            0 <= i < logits.len() && i < CODEC_VOCAB && legal(s, i) && (#[trigger] logits[i])
                .finite() && scaled[i].finite();
        assert(l[i].finite());
    }
}

/// A draw that has started cannot fail any more: the nucleus keeps the greatest
/// logit, so that there is one to fall back on.
pub proof fn started_draws_succeed(
    l: Seq<Single>,
    law: DrawLaw,
    shares: Seq<Single>,
    top_p: Single,
)
    requires
        l.len() <= u32::MAX,
        draw_error(l, law) is None,
        shares.len() == order_of(top_k_of(l, law.top_k as int)).len(),
    ensures
        !hopeless(kept_of(l, law, shares, top_p)),
{
    let k = law.top_k as int;
    the_cut_leaves_a_logit(l, k);
    let cut = top_k_of(l, k);
    if clipping(law.top_p) {
        let order = order_of(cut);
        lemma_ranked(cut);
        assert(order.len() > 0) by {
            let i = choose|i: int| 0 <= i < cut.len() && (#[trigger] cut[i]).finite();
            assert(ranked(cut).contains(entry(cut, i)));
        }
        lemma_nucleus(shares, top_p, 0);
        let cutoff = nucleus_of(shares, top_p, 0);
        let tail = order.skip(cutoff);
        let at = order[0] as int;
        assert(ranked(cut)[0].1 == at && cut[at].finite());
        lemma_masked(cut, tail);
        assert(!tail.contains(at as usize)) by {
            if tail.contains(at as usize) {
                let m = choose|m: int| 0 <= m < tail.len() && tail[m] == at as usize;
                let r = ranked(cut);
                assert(r[m + cutoff].1 as usize == order[m + cutoff]);
                assert(r[m + cutoff] == entry(cut, at) && r[0] == entry(cut, at));
            }
        }
        assert(masked(cut, tail)[at] == cut[at]);
    }
}

proof fn lemma_nucleus(shares: Seq<Single>, top_p: Single, from: int)
    requires
        0 <= from <= shares.len(),
    ensures
        from <= nucleus_of(shares, top_p, from) <= shares.len(),
        from < shares.len() ==> from < nucleus_of(shares, top_p, from),
    decreases shares.len() - from,
{
    if from < shares.len() {
        lemma_nucleus(shares, top_p, from + 1);
    }
}

proof fn lemma_first_reaching(logits: Seq<Single>, sums: Seq<Single>, mark: Single, from: int)
    requires
        0 <= from,
    ensures
        first_reaching(logits, sums, mark, from) matches Some(i) ==> from <= i < logits.len() && (i
            == 0 || logits[i].finite()),
    decreases logits.len() - from,
{
    if from < logits.len() {
        lemma_first_reaching(logits, sums, mark, from + 1);
    }
}

/// What is drawn is finite, or the first entry.
proof fn lemma_drawn(
    l: Seq<Single>,
    law: DrawLaw,
    shares: Seq<Single>,
    top_p: Single,
    sums: Seq<Single>,
    mark: Single,
    t: int,
)
    requires
        l.len() <= u32::MAX,
        drawn(l, law, shares, top_p, sums, mark, t),
        shares.len() == order_of(top_k_of(l, law.top_k as int)).len(),
    ensures
        0 <= t < l.len(),
        t == 0 || l[t].finite(),
{
    if !frozen(law.temperature) {
        let cut = top_k_of(l, law.top_k as int);
        let kept = kept_of(l, law, shares, top_p);
        lemma_ranked(cut);
        lemma_nucleus(shares, top_p, 0);
        lemma_masked(cut, order_of(cut).skip(nucleus_of(shares, top_p, 0)));
        lemma_first_reaching(kept, sums, mark, 0);
        assert(kept.len() == l.len());
        assert(kept[t].finite() ==> l[t].finite());
    }
}

proof fn lemma_masked(l: Seq<Single>, places: Seq<usize>)
    requires
        l.len() <= u32::MAX,
        forall|m: int| 0 <= m < places.len() ==> #[trigger] places[m] < l.len(),
    ensures
        masked(l, places).len() == l.len(),
        forall|i: int|
            0 <= i < l.len() ==> #[trigger] masked(l, places)[i] == if places.contains(i as usize) {
                neg_infinity()
            } else {
                l[i]
            },
    decreases places.len(),
{
    if places.len() > 0 {
        let rest = places.drop_last();
        assert forall|m: int| 0 <= m < rest.len() implies #[trigger] rest[m] < l.len() by {
            assert(rest[m] == places[m]);
        }
        lemma_masked(l, rest);
        assert forall|i: int| 0 <= i < l.len() implies #[trigger] masked(l, places)[i]
            == if places.contains(i as usize) {
            neg_infinity()
        } else {
            l[i]
        } by {
            if i == places.last() {
                assert(places[places.len() - 1] == i as usize);
            } else if rest.contains(i as usize) {
                let m = choose|m: int| 0 <= m < rest.len() && rest[m] == i as usize;
                assert(places[m] == i as usize);
            } else if places.contains(i as usize) {
                let m = choose|m: int| 0 <= m < places.len() && places[m] == i as usize;
                assert(rest[m] == i as usize);
            }
        }
    }
}

/// The cut to the `k` greatest keeps each of them as it is and masks every
/// finite logit that is less than all of them.
pub proof fn top_k_keeps_the_greatest(l: Seq<Single>, k: int, j: int, i: int)
    requires
        l.len() <= u32::MAX,
        0 < k < l.len(),
        k < ranked(l).len(),
        0 <= j < k,
        0 <= i < l.len(),
    ensures
        ({
            let at = ranked(l)[j].1 as int;
            &&& l[at].finite()
            &&& top_k_of(l, k)[at] == l[at]
        }),
        (forall|m: int| 0 <= m < k ==> l[i].less(l[#[trigger] ranked(l)[m].1 as int]))
            ==> top_k_of(l, k)[i] == neg_infinity(),
{
    lemma_ranked(l);
    let at = ranked(l)[j].1 as int;
    let least = l[ranked(l)[k - 1].1 as int];
    if j < k - 1 {
        assert(in_order(ranked(l)[j], ranked(l)[k - 1]));
    }
    assert(ranked(l)[k - 1] == entry(l, ranked(l)[k - 1].1 as int));
    assert(ranked(l)[j] == entry(l, at));
    assert(!l[at].less(least));
}

/// Every finite logit has exactly one place in the order that the nucleus is
/// taken along, and the values do not rise along it.
pub proof fn nucleus_order_is_complete(l: Seq<Single>, i: int, a: int, b: int)
    requires
        l.len() <= u32::MAX,
        0 <= i < l.len(),
        0 <= a < b < order_of(l).len(),
    ensures
        order_of(l).contains(i as usize) <==> l[i].finite(),
        order_of(l)[a] != order_of(l)[b],
        !l[order_of(l)[a] as int].less(l[order_of(l)[b] as int]),
{
    lemma_ranked(l);
    let r = ranked(l);
    let o = order_of(l);
    if l[i].finite() {
        let k = choose|k: int| 0 <= k < r.len() && r[k] == entry(l, i);
        assert(o[k] == i as usize);
    }
    if o.contains(i as usize) {
        let k = choose|k: int| 0 <= k < o.len() && o[k] == i as usize;
        assert(r[k].1 < l.len() && l[r[k].1 as int].finite());
    }
    assert(in_order(r[a], r[b]));
    assert(r[a] == entry(l, r[a].1 as int) && r[b] == entry(l, r[b].1 as int));
    assert(r[a] != r[b]);
}

/// The state after a series of random numbers was asked for, each for a token
/// (true) or for an acoustic code (false).
pub open spec fn after_thresholds(s: SamplerView, for_token: Seq<bool>) -> SamplerView
    decreases for_token.len(),
{
    if for_token.len() == 0 {
        s
    } else {
        let t = after_thresholds(s, for_token.drop_last());
        if for_token.last() {
            SamplerView { talker_drawn: t.talker_drawn + 1, ..t }
        } else {
            SamplerView { codes_drawn: t.codes_drawn + 1, ..t }
        }
    }
}

/// The talker's random numbers depend on the seed and on how many of them came
/// before, not on how many were drawn for acoustic codes in between; and the
/// other way round.
pub proof fn streams_are_independent(s: SamplerView, for_token: Seq<bool>)
    ensures
        after_thresholds(s, for_token).cfg == s.cfg,
        after_thresholds(s, for_token).talker_drawn == s.talker_drawn + for_token.filter(
            |t: bool| t,
        ).len(),
        after_thresholds(s, for_token).codes_drawn == s.codes_drawn + for_token.filter(
            |t: bool| !t,
        ).len(),
    decreases for_token.len(),
{
    reveal(Seq::filter);
    if for_token.len() > 0 {
        streams_are_independent(s, for_token.drop_last());
    }
}

/// Each kind of draw goes by settings of its own: the talker's by the plain
/// ones, the redraw by those of the window, without a cut to the greatest, and
/// the acoustic codes' by theirs. The other settings play no part.
pub proof fn draws_go_by_their_own_settings(a: SamplerCfg, b: SamplerCfg)
    ensures
        talker_law(a).temperature == a.temperature,
        talker_law(a).top_k == a.top_k,
        talker_law(a).top_p == a.top_p,
        redraw_law(a).temperature == a.ras_temperature,
        redraw_law(a).top_k == 0,
        redraw_law(a).top_p == a.ras_top_p,
        code_law(a).temperature == a.cp_temperature,
        code_law(a).top_k == a.cp_top_k,
        code_law(a).top_p == a.cp_top_p,
        a.temperature == b.temperature && a.top_k == b.top_k && a.top_p == b.top_p <==> talker_law(
            a,
        ) == talker_law(b),
        a.ras_temperature == b.ras_temperature && a.ras_top_p == b.ras_top_p <==> redraw_law(a)
            == redraw_law(b),
        a.cp_temperature == b.cp_temperature && a.cp_top_k == b.cp_top_k && a.cp_top_p
            == b.cp_top_p <==> code_law(a) == code_law(b),
{
}

/// Of the logits only those of the 2048 semantic codes are kept, and that of the
/// end, token 2150, once enough tokens came before it; every other one of the
/// 3072 is masked, and what is beyond them dropped.
pub proof fn only_legal_logits_are_kept(s: SamplerView, logits: Seq<Single>, i: int)
    requires
        0 <= i < logits.len(),
    ensures
        base_of(s, logits).len() == if logits.len() < 3072 {
            logits.len()
        } else {
            3072
        },
        i < 2048 ==> base_of(s, logits)[i] == logits[i],
        i == 2150 && s.count >= s.cfg.min_new_tokens ==> base_of(s, logits)[i] == logits[i],
        i == 2150 && s.count < s.cfg.min_new_tokens ==> base_of(s, logits)[i].bits == 0xff80_0000,
        2048 <= i < 3072 && i != 2150 ==> base_of(s, logits)[i].bits == 0xff80_0000,
{
}

/// The repetition penalty touches the finite logits of tokens that were drawn
/// before, and no others: those above zero are divided by it, the rest
/// multiplied. A penalty of 1 and one that is not a number touch none.
pub proof fn penalties_touch_what_was_drawn(s: SamplerView, base: Seq<Single>, i: int)
    requires
        0 <= i < base.len(),
    ensures
        penalties_of(s, base).len() == base.len(),
        ({
            let p = s.cfg.repetition_penalty;
            let what = penalties_of(s, base)[i];
            &&& p.bits == 0x3f80_0000 || p.nan() ==> what == Penalty::Keep
            &&& !s.seen[i] ==> what == Penalty::Keep
            &&& !base[i].finite() ==> what == Penalty::Keep
            &&& p.bits != 0x3f80_0000 && !p.nan() && s.seen[i] && base[i].finite() ==> if (Single {
                bits: 0,
            }).less(base[i]) {
                what == Penalty::Divide
            } else {
                what == Penalty::Multiply
            }
        }),
{
}

/// What was masked before penalties and temperature stays masked, and what was
/// not is taken as they left it. Masking the end touches no other logit.
pub proof fn masks_outlast_the_scaling(base: Seq<Single>, scaled: Seq<Single>, i: int)
    requires
        0 <= i < base.len(),
        base.len() == scaled.len(),
    ensures
        held(base, scaled).len() == base.len(),
        base[i].finite() ==> held(base, scaled)[i] == scaled[i],
        !base[i].finite() ==> held(base, scaled)[i] == base[i],
        endless(base).len() == base.len(),
        i == 2150 ==> endless(base)[i].bits == 0xff80_0000,
        i != 2150 ==> endless(base)[i] == base[i],
{
}

/// The argmax is a finite logit that no other is above and that every finite one
/// before it is below; there is only one such.
pub proof fn the_argmax_is_the_first_greatest(l: Seq<Single>, i: int, j: int)
    requires
        first_max(l, i),
        0 <= j < l.len(),
    ensures
        l[i].finite(),
        !l[i].less(l[j]) || !l[j].finite(),
        j < i && l[j].finite() ==> l[j].less(l[i]),
        first_max(l, j) ==> i == j,
        !hopeless(l),
{
}

/// A temperature below 0.01 takes the argmax, a share of the probability clips
/// where it is above 0 and below 1, and a temperature scales where it is above 0
/// and not between 1 - 1e-12 and 1 + 1e-12. A draw asks for its nucleus exactly
/// where it clips, of what the cut to the greatest left, along all of it.
pub proof fn draws_ask_for_what_their_law_says(scaled: Seq<Single>, law: DrawLaw, t: Double)
    ensures
        frozen(t) <==> t.less(Double { bits: 0x3f84_7ae1_47ae_147b }),
        clipping(t) <==> (Double { bits: 0 }).less(t) && t.less(
            Double { bits: 0x3ff0_0000_0000_0000 },
        ),
        scaling(t) <==> (Double { bits: 0 }).less(t) && (t.less(
            Double { bits: 0x3fef_ffff_ffff_dcd1 },
        ) || (Double { bits: 0x3ff0_0000_0000_1197 }).less(t)),
        match asked_of(scaled, law) {
            StepView::Token(_) => false,
            StepView::Nucleus { logits, order } => {
                &&& (Double { bits: 0 }).less(law.top_p)
                &&& law.top_p.less(Double { bits: 0x3ff0_0000_0000_0000 })
                &&& logits == top_k_of(scaled, law.top_k as int)
                &&& order == order_of(logits)
            },
            StepView::Weigh { logits } => {
                &&& !((Double { bits: 0 }).less(law.top_p) && law.top_p.less(
                    Double { bits: 0x3ff0_0000_0000_0000 },
                ))
                &&& logits == top_k_of(scaled, law.top_k as int)
            },
        },
{
}

/// Whether `many` are different places of finite logits that are all greater
/// than `v`.
pub open spec fn all_above(l: Seq<Single>, many: Seq<int>, v: Single) -> bool {
    &&& many.no_duplicates()
    &&& forall|m: int|
        0 <= m < many.len() ==> 0 <= #[trigger] many[m] < l.len() && l[many[m]].finite() && v.less(
            l[many[m]],
        )
}

/// The cut to the `k` greatest masks a finite logit exactly where `k` others are
/// greater than it, and leaves every other as it is. A `k` of zero cuts nothing.
pub proof fn the_cut_masks_what_k_are_above(l: Seq<Single>, k: int, i: int, many: Seq<int>)
    requires
        l.len() <= u32::MAX,
        0 <= i < l.len(),
        l[i].finite(),
        0 <= k,
    ensures
        top_k_of(l, k).len() == l.len(),
        k == 0 ==> top_k_of(l, k) == l,
        k > 0 && many.len() == k && all_above(l, many, l[i]) ==> top_k_of(l, k)[i].bits
            == 0xff80_0000,
        k > 0 && top_k_of(l, k)[i] != l[i] ==> top_k_of(l, k)[i].bits == 0xff80_0000 && exists|w:
            Seq<int>|
            w.len() == k && #[trigger] all_above(l, w, l[i]),
{
    lemma_ranked(l);
    let r = ranked(l);
    if 0 < k < l.len() && k < r.len() {
        let at = r[k - 1].1 as int;
        let least = l[at];
        assert(r[k - 1] == entry(l, at) && l[at].finite());
        if l[i].less(least) {
            let w = Seq::new(k as nat, |m: int| r[m].1 as int);
            assert forall|m: int| 0 <= m < w.len() implies 0 <= #[trigger] w[m] < l.len()
                && l[w[m]].finite() && l[i].less(l[w[m]]) by {
                assert(r[m] == entry(l, w[m]));
                if m < k - 1 {
                    assert(in_order(r[m], r[k - 1]));
                }
            }
            assert(w.no_duplicates()) by {
                assert forall|a: int, b: int| 0 <= a < w.len() && 0 <= b < w.len() && a != b implies w[a]
                    != w[b] by {
                    assert(r[a] == entry(l, w[a]) && r[b] == entry(l, w[b]) && r[a] != r[b]);
                }
            }
            assert(all_above(l, w, l[i]));
        } else if many.len() == k && all_above(l, many, l[i]) {
            lemma_too_many(l, k, many);
        }
    } else if k > 0 && many.len() == k && all_above(l, many, l[i]) {
        lemma_all_ranked(l, i, many);
    }
}

/// Where a finite entry stands in the ranking.
spec fn place(l: Seq<Single>, i: int) -> int {
    choose|p: int| 0 <= p < ranked(l).len() && ranked(l)[p] == entry(l, i)
}

/// The places of different finite entries are different and inside the ranking.
proof fn lemma_places(l: Seq<Single>, many: Seq<int>)
    requires
        l.len() <= u32::MAX,
        many.no_duplicates(),
        forall|m: int|
            0 <= m < many.len() ==> 0 <= #[trigger] many[m] < l.len() && l[many[m]].finite(),
    ensures
        many.map_values(|i: int| place(l, i)).no_duplicates(),
        forall|m: int|
            0 <= m < many.len() ==> 0 <= place(l, #[trigger] many[m]) < ranked(l).len() && ranked(
                l,
            )[place(l, many[m])] == entry(l, many[m]),
{
    lemma_ranked(l);
    assert forall|m: int| 0 <= m < many.len() implies 0 <= place(l, #[trigger] many[m]) < ranked(
        l,
    ).len() && ranked(l)[place(l, many[m])] == entry(l, many[m]) by {
        assert(ranked(l).contains(entry(l, many[m])));
    }
    let p = many.map_values(|i: int| place(l, i));
    assert forall|a: int, b: int| 0 <= a < p.len() && 0 <= b < p.len() && a != b implies p[a]
        != p[b] by {
        assert(many[a] != many[b]);
        assert(entry(l, many[a]).1 != entry(l, many[b]).1);
    }
}

/// Different numbers from 0 up to `n` are no more than `n`.
proof fn lemma_few(v: Seq<int>, n: int)
    requires
        0 <= n,
        v.no_duplicates(),
        forall|m: int| 0 <= m < v.len() ==> 0 <= #[trigger] v[m] < n,
    ensures
        v.len() <= n,
{
    let all = vstd::set_lib::set_int_range(0, n);
    vstd::set_lib::lemma_int_range(0, n);
    v.unique_seq_to_set();
    assert(v.to_set().subset_of(all));
    vstd::set_lib::lemma_len_subset(v.to_set(), all);
}

/// Fewer than `k` finite entries are greater than the `k`-th greatest.
proof fn lemma_too_many(l: Seq<Single>, k: int, many: Seq<int>)
    requires
        l.len() <= u32::MAX,
        0 < k < ranked(l).len(),
        many.no_duplicates(),
        forall|m: int|
            0 <= m < many.len() ==> 0 <= #[trigger] many[m] < l.len() && l[many[m]].finite()
                && l[ranked(l)[k - 1].1 as int].less(l[many[m]]),
    ensures
        many.len() < k,
{
    lemma_ranked(l);
    lemma_places(l, many);
    let r = ranked(l);
    let p = many.map_values(|i: int| place(l, i));
    assert forall|m: int| 0 <= m < p.len() implies 0 <= #[trigger] p[m] < k - 1 by {
        let i = many[m];
        assert(p[m] == place(l, i));
        assert(r[k - 1] == entry(l, r[k - 1].1 as int));
        if p[m] >= k - 1 {
            if p[m] > k - 1 {
                assert(in_order(r[k - 1], r[p[m]]));
            }
            assert(false);
        }
    }
    lemma_few(p, k - 1);
}

/// Where `k` finite entries are greater than another one, there are more than
/// `k`.
proof fn lemma_all_ranked(l: Seq<Single>, i: int, many: Seq<int>)
    requires
        l.len() <= u32::MAX,
        0 <= i < l.len(),
        l[i].finite(),
        all_above(l, many, l[i]),
    ensures
        many.len() < ranked(l).len(),
        many.len() < l.len(),
{
    lemma_ranked(l);
    let all = many.push(i);
    assert(all.no_duplicates()) by {
        assert forall|a: int, b: int|
            0 <= a < all.len() && 0 <= b < all.len() && a != b implies all[a] != all[b] by {
            if a == many.len() {
                assert(l[i].less(l[many[b]]));
            } else if b == many.len() {
                assert(l[i].less(l[many[a]]));
            } else {
                assert(many[a] != many[b]);
            }
        }
    }
    assert forall|m: int| 0 <= m < all.len() implies 0 <= #[trigger] all[m] < l.len()
        && l[all[m]].finite() by {
        if m < many.len() {
            assert(all[m] == many[m]);
        }
    }
    lemma_places(l, all);
    let p = all.map_values(|i: int| place(l, i));
    assert forall|m: int| 0 <= m < p.len() implies 0 <= #[trigger] p[m] < ranked(l).len() by {
        assert(p[m] == place(l, all[m]));
    }
    lemma_few(p, ranked(l).len() as int);
    lemma_few(all, l.len() as int);
}

/// The nucleus ends with the first entry along the order at which the share of
/// the probability is over the one that was asked for, or holds all of them; it
/// holds at least one. What of the order is inside is kept, what is outside is
/// masked, and a logit that is not in the order is left alone.
pub proof fn the_nucleus_ends_over_its_share(
    l: Seq<Single>,
    shares: Seq<Single>,
    top_p: Single,
    m: int,
    i: int,
)
    requires
        l.len() <= u32::MAX,
        shares.len() == order_of(l).len(),
        0 <= m < shares.len(),
        0 <= i < l.len(),
    ensures
        ({
            let order = order_of(l);
            let n = nucleus_of(shares, top_p, 0);
            let kept = clipped(l, order, shares, top_p);
            &&& 0 < n <= shares.len()
            &&& m < n - 1 ==> !top_p.less(shares[m])
            &&& n < shares.len() ==> top_p.less(shares[n - 1])
            &&& kept.len() == l.len()
            &&& m < n ==> kept[order[m] as int] == l[order[m] as int]
            &&& m >= n ==> kept[order[m] as int].bits == 0xff80_0000
            &&& !l[i].finite() ==> kept[i] == l[i]
        }),
{
    lemma_ranked(l);
    lemma_nucleus(shares, top_p, 0);
    lemma_nucleus_shares(shares, top_p, 0, m);
    let order = order_of(l);
    let r = ranked(l);
    let n = nucleus_of(shares, top_p, 0);
    let tail = order.skip(n);
    assert forall|j: int| 0 <= j < tail.len() implies #[trigger] tail[j] < l.len() by {
        assert(r[j + n].1 < l.len());
    }
    lemma_masked(l, tail);
    let at = order[m] as int;
    assert(r[m].1 == at && r[m] == entry(l, at));
    if m >= n {
        assert(tail[m - n] == at as usize);
    } else if tail.contains(at as usize) {
        let j = choose|j: int| 0 <= j < tail.len() && tail[j] == at as usize;
        assert(r[j + n].1 == at && r[j + n] == entry(l, at));
    }
    if !l[i].finite() && tail.contains(i as usize) {
        let j = choose|j: int| 0 <= j < tail.len() && tail[j] == i as usize;
        assert(r[j + n].1 == i && l[r[j + n].1 as int].finite());
    }
}

proof fn lemma_nucleus_shares(shares: Seq<Single>, top_p: Single, from: int, m: int)
    requires
        0 <= from <= shares.len(),
    ensures
        ({
            let n = nucleus_of(shares, top_p, from);
            &&& from <= m < n - 1 ==> !top_p.less(shares[m])
            &&& n < shares.len() ==> from < n && top_p.less(shares[n - 1])
        }),
    decreases shares.len() - from,
{
    if from < shares.len() {
        lemma_nucleus_shares(shares, top_p, from + 1, m);
    }
}

/// Along the order of the nucleus the values fall, and of two that are the same
/// the one with the smaller index comes first.
pub proof fn ties_go_by_their_places(l: Seq<Single>, a: int, b: int)
    requires
        l.len() <= u32::MAX,
        0 <= a < b < order_of(l).len(),
    ensures
        l[order_of(l)[a] as int].bits == l[order_of(l)[b] as int].bits ==> order_of(l)[a]
            < order_of(l)[b],
        !l[order_of(l)[a] as int].less(l[order_of(l)[b] as int]),
{
    lemma_ranked(l);
    let r = ranked(l);
    assert(in_order(r[a], r[b]));
    assert(r[a] == entry(l, r[a].1 as int) && r[b] == entry(l, r[b].1 as int));
    assert(r[a] != r[b]);
}

/// A draw takes the first entry whose running sum is at least the mark, passing
/// over what is not finite but for the very first; it takes none only where no
/// such entry is there.
pub proof fn the_mark_takes_the_first_it_does_not_pass(
    logits: Seq<Single>,
    sums: Seq<Single>,
    mark: Single,
    i: int,
)
    requires
        0 <= i < logits.len(),
        sums.len() == logits.len(),
    ensures
        ({
            let reached = |k: int|
                !sums[k].nan() && !mark.nan() && !sums[k].less(mark) && (k == 0
                    || logits[k].finite());
            match first_reaching(logits, sums, mark, 0) {
                Some(k) => 0 <= k < logits.len() && reached(k) && (i < k ==> !reached(i)),
                None => !reached(i),
            }
        }),
{
    lemma_reaching(logits, sums, mark, 0, i);
}

proof fn lemma_reaching(
    logits: Seq<Single>,
    sums: Seq<Single>,
    mark: Single,
    from: int,
    i: int,
)
    requires
        0 <= from <= i < logits.len() || from > i >= 0,
        sums.len() == logits.len(),
    ensures
        match first_reaching(logits, sums, mark, from) {
            Some(k) => from <= k < logits.len() && reaches(sums[k], mark) && (k == 0
                || logits[k].finite()) && (from <= i < k ==> !(reaches(sums[i], mark) && (i == 0
                || logits[i].finite()))),
            None => from <= i < logits.len() ==> !(reaches(sums[i], mark) && (i == 0
                || logits[i].finite())),
        },
    decreases logits.len() - from,
{
    if from < logits.len() {
        lemma_reaching(logits, sums, mark, from + 1, i);
    }
}

/// What is remembered is the end of what came: remembering token by token keeps
/// the last `n` of all of them, whatever was forgotten on the way.
pub proof fn the_newest_are_the_last(s: Seq<u32>, n: nat, t: u32)
    ensures
        newest(s, n).len() <= n,
        s.len() <= n ==> newest(s, n) == s,
        s.len() > n ==> newest(s, n).len() == n && s.take(s.len() - n) + newest(s, n) == s,
        newest(newest(s, n).push(t), n) == newest(s.push(t), n),
{
    if s.len() > n {
        assert(s.take(s.len() - n) + newest(s, n) =~= s);
    }
    assert(newest(newest(s, n).push(t), n) =~= newest(s.push(t), n));
}

/// The acoustic codes' seed is another one than the talker's, and no two seeds
/// share one.
pub proof fn the_streams_have_seeds_of_their_own(a: u64, b: u64)
    ensures
        a ^ CODE_STREAM != a,
        a ^ CODE_STREAM == b ^ CODE_STREAM ==> a == b,
        CODE_STREAM == 0x9E37_79B9_7F4A_7C15,
{
    assert(a ^ 0x9E37_79B9_7F4A_7C15u64 != a) by (bit_vector);
    assert(a ^ 0x9E37_79B9_7F4A_7C15u64 == b ^ 0x9E37_79B9_7F4A_7C15u64 ==> a == b) by (bit_vector);
}

/// The published settings sample tokens and codes alike, at 0.9 and from the 50
/// greatest, without a nucleus and without a redraw; the app's are colder, clip
/// to 0.9, redraw what is among the last ten tokens, and take the greatest code.
pub proof fn presets_are_as_published()
    ensures
        ({
            let c = official_cfg();
            &&& (c.temperature.bits, c.top_k, c.top_p.bits) == (
                0x3fec_cccc_cccc_cccdu64,
                50usize,
                0x3ff0_0000_0000_0000u64,
            )
            &&& (c.cp_temperature, c.cp_top_k, c.cp_top_p) == (c.temperature, c.top_k, c.top_p)
            &&& c.repetition_penalty.bits == 0x3f86_6666
            &&& c.ras_window is None
            &&& c.ras_temperature.bits == 0x3ff0_0000_0000_0000
            &&& c.ras_top_p.bits == 0x3fec_cccc_cccc_cccd
            &&& c.cp_sample
            &&& c.min_new_tokens == 2
            &&& c.seed == 0
        }),
        ({
            let c = app_cfg();
            &&& (c.temperature.bits, c.top_k, c.top_p.bits) == (
                0x3fe6_6666_6666_6666u64,
                50usize,
                0x3fec_cccc_cccc_cccdu64,
            )
            &&& c.repetition_penalty.bits == 0x3f8c_cccd
            &&& c.ras_window == Some(10usize)
            &&& c.ras_temperature.bits == 0x3ff0_0000_0000_0000
            &&& c.ras_top_p.bits == 0x3fec_cccc_cccc_cccd
            &&& !c.cp_sample
            &&& (c.cp_temperature.bits, c.cp_top_k, c.cp_top_p.bits) == (
                0x3ff0_0000_0000_0000u64,
                0usize,
                0x3ff0_0000_0000_0000u64,
            )
            &&& c.min_new_tokens == 2
            &&& c.seed == 0
        }),
        official_cfg().temperature.less(Double { bits: DOUBLE_1 }),
        app_cfg().temperature.less(official_cfg().temperature),
        official_cfg().repetition_penalty.less(app_cfg().repetition_penalty),
{
}

/// A draw fails exactly where no logit is finite, and says what it was to be: an
/// argmax or a sample.
pub proof fn draws_fail_without_a_finite_logit(l: Seq<Single>, law: DrawLaw)
    ensures
        draw_error(l, law) is Some <==> forall|j: int|
            0 <= j < l.len() ==> !(#[trigger] l[j]).finite(),
        draw_error(l, law) is Some ==> draw_error(l, law) == Some(
            ErrorView::Numeric(
                if law.temperature.less(Double { bits: 0x3f84_7ae1_47ae_147b }) {
                    "no finite logits to take the argmax of"@
                } else {
                    "no finite logits to sample from"@
                },
            ),
        ),
{
}

/// A step is seen as it is: the token, or the logits and the order that goes with
/// them.
pub proof fn steps_are_seen_as_they_are(step: DrawStep)
    ensures
        match (step, step@) {
            (DrawStep::Token(a), StepView::Token(b)) => a == b,
            (
                DrawStep::Nucleus { logits, order },
                StepView::Nucleus { logits: l, order: o },
            ) => l == logits@ && o == order@,
            (DrawStep::Weigh { logits }, StepView::Weigh { logits: l }) => l == logits@,
            _ => false,
        },
{
}

/// Where a logit is finite there is an argmax.
pub proof fn a_finite_logit_has_an_argmax(l: Seq<Single>)
    ensures
        hopeless(l) <==> !exists|i: int| first_max(l, i),
    decreases l.len(),
{
    if l.len() > 0 && !hopeless(l) {
        let rest = l.drop_last();
        let n = rest.len() as int;
        a_finite_logit_has_an_argmax(rest);
        if hopeless(rest) {
            assert(l[n].finite()) by {
                let k = choose|k: int| 0 <= k < l.len() && (#[trigger] l[k]).finite();
                if k < n {
                    assert(!rest[k].finite());
                }
            }
            assert forall|j: int| 0 <= j < n implies !(#[trigger] l[j]).finite() by {
                assert(!rest[j].finite());
            }
            assert(first_max(l, n));
        } else {
            let i = choose|i: int| first_max(rest, i);
            assert forall|j: int| 0 <= j < n implies #[trigger] l[j] == rest[j] by {}
            if l[n].finite() && l[i].key() < l[n].key() {
                assert forall|j: int| 0 <= j < n && (#[trigger] l[j]).finite() implies l[j].key()
                    < l[n].key() by {
                    assert(rest[j].finite());
                }
                assert(first_max(l, n));
            } else {
                assert forall|j: int| 0 <= j < l.len() && (#[trigger] l[j]).finite() implies if j
                    < i {
                    l[j].key() < l[i].key()
                } else {
                    l[j].key() <= l[i].key()
                } by {
                    if j < n {
                        assert(rest[j].finite());
                    }
                }
                assert(first_max(l, i));
            }
        }
    }
}

} // verus!
