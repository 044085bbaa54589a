//! The framing of the log-mel spectrogram that the speaker encoder takes.

use crate::error::{ErrorView, TtsError};
use vstd::arithmetic::power2::{lemma2_to64, lemma_pow2_adds, lemma_pow2_pos, pow2};
use vstd::prelude::*;

verus! {

/// Samples in a transform.
pub const N_FFT: usize = 1024;

/// Samples between two transforms.
pub const HOP: usize = 256;

/// Bands.
pub const N_MELS: usize = 128;

/// Samples mirrored on each side.
pub const PAD: usize = 384;

/// Reflect padding mirrors `PAD` samples on each side, so the mirrored index
/// `PAD` must exist.
pub const MIN_SAMPLES: usize = 385;

/// The frames of a spectrogram.
#[derive(Clone, Copy, PartialEq, Eq, Debug, Structural)]
pub struct MelPlan {
    /// Samples.
    pub samples: usize,
    /// Samples with the mirrored ones.
    pub padded: usize,
    /// Frames.
    pub frames: usize,
}

/// The sample that stands at place `i` of the padded signal: it is mirrored
/// around the first and the last sample.
pub open spec fn mirrored(i: int, n: int) -> int {
    let at = i - PAD;
    if at < 0 {
        -at
    } else if at >= n {
        2 * (n - 1) - at
    } else {
        at
    }
}

/// Plans the spectrogram of `n` samples; too few are refused.
pub fn log_mel(n: usize) -> (r: Result<MelPlan, TtsError>)
    requires
        n + 2 * PAD <= usize::MAX,
    ensures
        match r {
            Ok(p) => {
                &&& n >= MIN_SAMPLES
                &&& p.samples == n
                &&& p.padded == n + 2 * PAD
                &&& p.frames == (n + 2 * PAD - N_FFT) / HOP as int + 1
                &&& (p.frames - 1) * HOP + N_FFT <= p.padded < p.frames * HOP + N_FFT
            },
            Err(e) => n < MIN_SAMPLES && e@ == (ErrorView::ReferenceTooShort {
                samples: n,
                min_samples: MIN_SAMPLES,
            }),
        },
{
    if n < MIN_SAMPLES {
        return Err(TtsError::ReferenceTooShort { samples: n, min_samples: MIN_SAMPLES });
    }
    let padded: usize = n + 2 * PAD;
    let frames: usize = (padded - N_FFT) / HOP + 1;
    Ok(MelPlan { samples: n, padded, frames })
}

impl MelPlan {
    /// The sample at place `i` of the padded signal.
    pub fn source(&self, i: usize) -> (r: usize)
        requires
            self.samples >= MIN_SAMPLES,
            self.padded == self.samples + 2 * PAD,
            i < self.padded,
        ensures
            r == mirrored(i as int, self.samples as int),
            r < self.samples,
    {
        if i < PAD {
            PAD - i
        } else {
            let at: usize = i - PAD;
            if at >= self.samples {
                let past: usize = at - self.samples;
                self.samples - 2 - past
            } else {
                at
            }
        }
    }
}

/// `x` with its lowest `bits` bits in reverse order.
pub open spec fn reversed(x: nat, bits: nat) -> nat
    decreases bits,
{
    if bits == 0 {
        0
    } else {
        x % 2 * pow2((bits - 1) as nat) + reversed(x / 2, (bits - 1) as nat)
    }
}

fn reverse_bits(x: usize, bits: u32) -> (r: usize)
    requires
        bits <= 30,
    ensures
        r == reversed(x as nat, bits as nat),
        r < pow2(bits as nat),
    decreases bits,
{
    proof {
        lemma2_to64();
        lemma_reversed_bound(x as nat, bits as nat);
    }
    if bits == 0 {
        0
    } else {
        let high: usize = x % 2;
        let low: usize = reverse_bits(x / 2, bits - 1);
        let half: usize = half_of(bits);
        proof {
            assert(high * half <= half) by (nonlinear_arith)
                requires
                    high <= 1,
                    half >= 0,
            ;
            assert(pow2((bits - 1) as nat) <= 0x4000_0000) by {
                lemma_pow2_small((bits - 1) as nat);
            }
        }
        high * half + low
    }
}

proof fn lemma_pow2_small(b: nat)
    requires
        b <= 30,
    ensures
        1 <= pow2(b) <= 0x4000_0000,
{
    lemma2_to64();
    lemma_pow2_pos(b);
    if b < 30 {
        vstd::arithmetic::power2::lemma_pow2_strictly_increases(b, 30);
    }
}

fn half_of(bits: u32) -> (r: usize)
    requires
        1 <= bits <= 30,
    ensures
        r == pow2((bits - 1) as nat),
{
    let mut r: usize = 1;
    let mut b: u32 = 1;
    proof {
        lemma2_to64();
    }
    while b < bits
        invariant
            1 <= b <= bits <= 30,
            r == pow2((b - 1) as nat),
        decreases bits - b,
    {
        proof {
            lemma_pow2_small((b - 1) as nat);
            lemma2_to64();
            lemma_pow2_adds((b - 1) as nat, 1);
        }
        r = 2 * r;
        b = b + 1;
    }
    r
}

proof fn lemma_reversed_bound(x: nat, bits: nat)
    ensures
        reversed(x, bits) < pow2(bits),
    decreases bits,
{
    lemma2_to64();
    if bits > 0 {
        let b = (bits - 1) as nat;
        lemma_reversed_bound(x / 2, b);
        lemma_pow2_adds(b, 1);
        assert(x % 2 * pow2(b) <= pow2(b)) by (nonlinear_arith)
            requires
                x % 2 <= 1,
        ;
    }
}

/// The pairs of places that a transform of 2 to the power of `bits` swaps
/// first: each place with the one whose bits are in reverse order, once.
pub open spec fn swaps_below(n: nat, bits: nat) -> Seq<(usize, usize)>
    decreases n,
{
    if n == 0 {
        Seq::empty()
    } else {
        let i = (n - 1) as nat;
        let before = swaps_below(i, bits);
        if i < reversed(i, bits) {
            before.push((i as usize, reversed(i, bits) as usize))
        } else {
            before
        }
    }
}

/// The swaps that a transform of `2^bits` places starts with.
pub fn bit_reversal(bits: u32) -> (r: Vec<(usize, usize)>)
    requires
        bits <= 29,
    ensures
        r@ == swaps_below(pow2(bits as nat), bits as nat),
{
    let n: usize = half_of(bits + 1);
    let mut out: Vec<(usize, usize)> = Vec::new();
    let mut i: usize = 0;
    while i < n
        invariant
            i <= n,
            bits <= 29,
            out@ == swaps_below(i as nat, bits as nat),
        decreases n - i,
    {
        let j: usize = reverse_bits(i, bits);
        if i < j {
            out.push((i, j));
        }
        i = i + 1;
    }
    out
}

/// Reversing splits: the highest bit becomes the lowest.
proof fn lemma_reversed_top(h: nat, l: nat, bits: nat)
    requires
        bits > 0,
        h <= 1,
        l < pow2((bits - 1) as nat),
    ensures
        reversed(h * pow2((bits - 1) as nat) + l, bits) == 2 * reversed(l, (bits - 1) as nat) + h,
    decreases bits,
{
    lemma2_to64();
    let b = (bits - 1) as nat;
    let x = h * pow2(b) + l;
    if b == 0 {
        assert(pow2(0) == 1);
        assert(x == h) by (nonlinear_arith)
            requires
                x == h * pow2(b) + l,
                pow2(b) == 1,
                l == 0,
        ;
        assert(reversed(x / 2, 0) == 0);
        assert(x % 2 * pow2(0) == h) by (nonlinear_arith)
            requires
                x == h,
                h <= 1,
                pow2(0) == 1,
        ;
    } else {
        let c = (b - 1) as nat;
        lemma_pow2_adds(c, 1);
        assert(pow2(b) == 2 * pow2(c));
        let p = pow2(c);
        assert(x == 2 * (h * p) + l) by (nonlinear_arith)
            requires
                x == h * pow2(b) + l,
                pow2(b) == 2 * p,
        ;
        assert(x % 2 == l % 2);
        assert(x / 2 == h * p + l / 2);
        lemma_reversed_top(h, l / 2, b);
        assert(reversed(x, bits) == l % 2 * pow2(b) + (2 * reversed(l / 2, c) + h));
        assert(reversed(l, b) == l % 2 * p + reversed(l / 2, c));
        assert(l % 2 * pow2(b) == 2 * (l % 2 * p)) by (nonlinear_arith)
            requires
                pow2(b) == 2 * p,
        ;
    }
}

/// Reversing the bits twice gives back the number, so the swaps form pairs and
/// each place moves once.
pub proof fn bit_reversal_is_an_involution(x: nat, bits: nat)
    requires
        x < pow2(bits),
    ensures
        reversed(x, bits) < pow2(bits),
        reversed(reversed(x, bits), bits) == x,
    decreases bits,
{
    lemma2_to64();
    lemma_reversed_bound(x, bits);
    if bits > 0 {
        let b = (bits - 1) as nat;
        lemma_pow2_adds(b, 1);
        lemma_reversed_bound(x / 2, b);
        lemma_reversed_top(x % 2, reversed(x / 2, b), bits);
        bit_reversal_is_an_involution(x / 2, b);
    }
}

/// Every place of the padded signal mirrors a sample that exists, and the
/// middle is the signal itself.
pub proof fn mirror_stays_inside(i: int, n: int)
    requires
        n >= MIN_SAMPLES,
        0 <= i < n + 2 * PAD,
    ensures
        0 <= mirrored(i, n) < n,
        PAD <= i < n + PAD ==> mirrored(i, n) == i - PAD,
        i < PAD ==> mirrored(i, n) == mirrored(2 * PAD - i, n),
{
}

/// Bit `k` of a number is bit `bits - 1 - k` of the number with its bits in
/// reverse order.
pub proof fn bits_are_mirrored(x: nat, bits: nat, k: nat)
    requires
        k < bits,
    ensures
        reversed(x, bits) / pow2((bits - 1 - k) as nat) % 2 == x / pow2(k) % 2,
    decreases bits,
{
    lemma2_to64();
    let b = (bits - 1) as nat;
    let low = reversed(x / 2, b);
    lemma_reversed_bound(x / 2, b);
    lemma_pow2_pos(b);
    if k == 0 {
        let p = pow2(b);
        let h = x % 2;
        assert((h * p + low) / p == h) by (nonlinear_arith)
            requires
                0 <= low < p,
                h >= 0,
        ;
        assert(x / 1 == x);
    } else {
        let j = (b - k) as nat;
        bits_are_mirrored(x / 2, b, (k - 1) as nat);
        lemma_pow2_pos(j);
        lemma_pow2_pos((k - 1) as nat);
        lemma_pow2_adds(j, k);
        lemma_pow2_adds((k - 1) as nat, 1);
        let (q, s) = (pow2(j), pow2((k - 1) as nat));
        assert(pow2(k) == 2 * s);
        assert(pow2(b) == q * (2 * s));
        let h = x % 2;
        assert(h * (q * (2 * s)) + low == q * (2 * (h * s)) + low) by (nonlinear_arith);
        assert((q * (2 * (h * s)) + low) / q == 2 * (h * s) + low / q) by {
            vstd::arithmetic::div_mod::lemma_hoist_over_denominator(
                low as int,
                2 * (h * s) as int,
                q,
            );
            assert(q * (2 * (h * s)) == 2 * (h * s) * q) by (nonlinear_arith);
        }
        vstd::arithmetic::div_mod::lemma_div_denominator(x as int, 2, s as int);
    }
}

/// The swaps are those of each place below `n` with the one whose bits are in
/// reverse order, from the smaller of the two: each pair is listed once.
pub proof fn swaps_are_the_mirrored_pairs(n: nat, bits: nat, i: int)
    requires
        0 <= i < n,
        n <= usize::MAX,
        bits <= 30,
    ensures
        i < reversed(i as nat, bits) ==> swaps_below(n, bits).contains(
            (i as usize, reversed(i as nat, bits) as usize),
        ),
        forall|k: int|
            0 <= k < swaps_below(n, bits).len() ==> {
                let p = #[trigger] swaps_below(n, bits)[k];
                p.0 < n && p.0 < p.1 && p.1 == reversed(p.0 as nat, bits)
            },
        forall|a: int, b: int|
            0 <= a < b < swaps_below(n, bits).len() ==> (#[trigger] swaps_below(n, bits)[a]).0
                < (#[trigger] swaps_below(n, bits)[b]).0,
    decreases n,
{
    let m = (n - 1) as nat;
    lemma_reversed_bound(m, bits);
    lemma_pow2_small(bits);
    if m > 0 {
        let j = if i < m {
            i
        } else {
            0
        };
        swaps_are_the_mirrored_pairs(m, bits, j);
        let before = swaps_below(m, bits);
        let all = swaps_below(n, bits);
        if i < m && i < reversed(i as nat, bits) {
            let k = choose|k: int|
                0 <= k < before.len() && before[k] == (
                    i as usize,
                    reversed(i as nat, bits) as usize,
                );
            assert(all[k] == before[k]);
        } else if i == m && i < reversed(m, bits) {
            assert(all[before.len() as int] == (m as usize, reversed(m, bits) as usize));
        }
    } else {
        assert(swaps_below(0, bits) =~= Seq::empty());
        let all = swaps_below(n, bits);
        if 0 < reversed(0, bits) {
            assert(all[0] == (0usize, reversed(0, bits) as usize));
        }
    }
}

/// The padding mirrors 384 samples at either end around the last one there, so
/// that a transform of 1024 samples every 256 is centred on what it stands for.
pub proof fn both_ends_are_mirrored(i: int, n: int)
    requires
        n >= 385,
        0 <= i < n + 768,
    ensures
        i < 384 ==> mirrored(i, n) == 384 - i,
        384 <= i < n + 384 ==> mirrored(i, n) == i - 384,
        i >= n + 384 ==> mirrored(i, n) == (n - 1) - (i - 384 - (n - 1)),
        2 * PAD == N_FFT - HOP,
        N_FFT == 1024,
        HOP == 256,
        N_MELS == 128,
        MIN_SAMPLES == 385,
{
}

} // verus!
