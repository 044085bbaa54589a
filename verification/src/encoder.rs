//! The 12 Hz encoder: which weights it needs, how it pads, and how its codes
//! become frames.

use crate::error::{ErrorView, TtsError};
use crate::pipeline::codes_of;
use crate::schema::{
    check, first_error, lists_pass_together, load_steps, loadable, no_steps, part, part_name,
    pointwise_steps, put, put_all, put_load, put_pointwise, short_lists_ask_for_a_rank, steps_of,
    under, Step, StepView, Tensors,
};
use crate::text::digits;
use crate::weights::WeightFile;
use vstd::prelude::*;

verus! {

/// The strides of the convolutions before the transformer.
pub const STRIDE_1: usize = 4;

/// The second stride.
pub const STRIDE_2: usize = 5;

/// The third stride.
pub const STRIDE_3: usize = 6;

/// The fourth stride.
pub const STRIDE_4: usize = 8;

/// The stride of the convolution behind the transformer.
pub const DOWNSAMPLE_STRIDE: usize = 2;

/// 24 kHz samples per 12.5 Hz frame: the product of every stride.
pub const SAMPLES_PER_FRAME: usize = 1920;

/// Positions that the transformer looks back.
pub const ATTENTION_WINDOW: usize = 250;

/// The checks of a convolution with a stride; its bias may be absent.
pub open spec fn econv_steps(p: Seq<char>, stride: int) -> Seq<StepView> {
    seq![
        StepView::Load { name: p + ".weight"@, rank: 3 },
        StepView::Kernel { name: p + ".weight"@, stride },
        StepView::Optional { name: p + ".bias"@ },
    ]
}

/// The checks of a codebook.
pub open spec fn encoder_codebook_steps(p: Seq<char>) -> Seq<StepView> {
    load_steps(p + ".embed_sum"@, 2) + load_steps(p + ".cluster_usage"@, 1)
}

/// The checks of the transformer layer under `p`.
pub open spec fn encoder_layer_steps(p: Seq<char>) -> Seq<StepView> {
    load_steps(p + ".input_layernorm.weight"@, 1) + load_steps(p + ".input_layernorm.bias"@, 1)
        + load_steps(p + ".self_attn.q_proj.weight"@, 2) + load_steps(
        p + ".self_attn.k_proj.weight"@,
        2,
    ) + load_steps(p + ".self_attn.v_proj.weight"@, 2) + load_steps(
        p + ".self_attn.o_proj.weight"@,
        2,
    ) + load_steps(p + ".self_attn_layer_scale.scale"@, 1) + load_steps(
        p + ".post_attention_layernorm.weight"@,
        1,
    ) + load_steps(p + ".post_attention_layernorm.bias"@, 1) + load_steps(p + ".mlp.fc1.weight"@, 2)
        + load_steps(p + ".mlp.fc2.weight"@, 2) + load_steps(p + ".mlp_layer_scale.scale"@, 1)
}

/// The checks of the first `n` transformer layers.
pub open spec fn encoder_layers_steps(n: nat) -> Seq<StepView>
    decreases n,
{
    if n == 0 {
        Seq::empty()
    } else {
        encoder_layers_steps((n - 1) as nat) + encoder_layer_steps(
            part("encoder.encoder_transformer.layers."@, n - 1, ""@),
        )
    }
}

/// The checks of the first `n` acoustic codebooks.
pub open spec fn acoustic_steps(n: nat) -> Seq<StepView>
    decreases n,
{
    if n == 0 {
        Seq::empty()
    } else {
        acoustic_steps((n - 1) as nat) + encoder_codebook_steps(
            part(
                "encoder.quantizer.acoustic_residual_vector_quantizer.layers."@,
                n - 1,
                ".codebook"@,
            ),
        )
    }
}

/// The checks of the convolutions, in order: the first, the residual blocks,
/// those with a stride, the last.
pub open spec fn conv_stack_steps() -> Seq<StepView> {
    econv_steps("encoder.encoder.layers.0.conv"@, 1) + econv_steps(
        "encoder.encoder.layers.1.block.1.conv"@,
        1,
    ) + econv_steps("encoder.encoder.layers.1.block.3.conv"@, 1) + econv_steps(
        "encoder.encoder.layers.4.block.1.conv"@,
        1,
    ) + econv_steps("encoder.encoder.layers.4.block.3.conv"@, 1) + econv_steps(
        "encoder.encoder.layers.7.block.1.conv"@,
        1,
    ) + econv_steps("encoder.encoder.layers.7.block.3.conv"@, 1) + econv_steps(
        "encoder.encoder.layers.10.block.1.conv"@,
        1,
    ) + econv_steps("encoder.encoder.layers.10.block.3.conv"@, 1) + econv_steps(
        "encoder.encoder.layers.3.conv"@,
        STRIDE_1 as int,
    ) + econv_steps("encoder.encoder.layers.6.conv"@, STRIDE_2 as int) + econv_steps(
        "encoder.encoder.layers.9.conv"@,
        STRIDE_3 as int,
    ) + econv_steps("encoder.encoder.layers.12.conv"@, STRIDE_4 as int) + econv_steps(
        "encoder.encoder.layers.14.conv"@,
        1,
    )
}

/// All checks of the encoder, in order.
pub open spec fn encoder_steps() -> Seq<StepView> {
    conv_stack_steps() + encoder_layers_steps(8) + econv_steps(
        "encoder.downsample.conv"@,
        DOWNSAMPLE_STRIDE as int,
    ) + pointwise_steps(
        "encoder.quantizer.semantic_residual_vector_quantizer.input_proj.weight"@,
    ) + encoder_codebook_steps(
        "encoder.quantizer.semantic_residual_vector_quantizer.layers.0.codebook"@,
    ) + pointwise_steps(
        "encoder.quantizer.acoustic_residual_vector_quantizer.input_proj.weight"@,
    ) + acoustic_steps(15)
}

fn put_econv(v: &mut Vec<Step>, p: &str, stride: usize)
    ensures
        steps_of(final(v)@) == steps_of(old(v)@) + econv_steps(p@, stride as int),
{
    put(v, Step::Load { name: under(p, ".weight"), rank: 3 });
    put(v, Step::Kernel { name: under(p, ".weight"), stride });
    put(v, Step::Optional { name: under(p, ".bias") });
    assert(steps_of(v@) =~= steps_of(old(v)@) + econv_steps(p@, stride as int));
}

fn encoder_codebook_schema(p: &str) -> (r: Vec<Step>)
    ensures
        steps_of(r@) == encoder_codebook_steps(p@),
{
    let mut v: Vec<Step> = no_steps();
    put_load(&mut v, under(p, ".embed_sum"), 2);
    put_load(&mut v, under(p, ".cluster_usage"), 1);
    assert(Seq::<StepView>::empty() + load_steps(p@ + ".embed_sum"@, 2) =~= load_steps(
        p@ + ".embed_sum"@,
        2,
    ));
    v
}

fn encoder_layer_schema(p: &str) -> (r: Vec<Step>)
    ensures
        steps_of(r@) == encoder_layer_steps(p@),
{
    let mut v: Vec<Step> = no_steps();
    put_load(&mut v, under(p, ".input_layernorm.weight"), 1);
    put_load(&mut v, under(p, ".input_layernorm.bias"), 1);
    put_load(&mut v, under(p, ".self_attn.q_proj.weight"), 2);
    put_load(&mut v, under(p, ".self_attn.k_proj.weight"), 2);
    put_load(&mut v, under(p, ".self_attn.v_proj.weight"), 2);
    put_load(&mut v, under(p, ".self_attn.o_proj.weight"), 2);
    put_load(&mut v, under(p, ".self_attn_layer_scale.scale"), 1);
    put_load(&mut v, under(p, ".post_attention_layernorm.weight"), 1);
    put_load(&mut v, under(p, ".post_attention_layernorm.bias"), 1);
    put_load(&mut v, under(p, ".mlp.fc1.weight"), 2);
    put_load(&mut v, under(p, ".mlp.fc2.weight"), 2);
    put_load(&mut v, under(p, ".mlp_layer_scale.scale"), 1);
    assert(Seq::<StepView>::empty() + load_steps(p@ + ".input_layernorm.weight"@, 1)
        =~= load_steps(p@ + ".input_layernorm.weight"@, 1));
    v
}

fn encoder_layers_schema(n: usize) -> (r: Vec<Step>)
    ensures
        steps_of(r@) == encoder_layers_steps(n as nat),
{
    let mut v: Vec<Step> = no_steps();
    let mut i: usize = 0;
    while i < n
        invariant
            i <= n,
            steps_of(v@) == encoder_layers_steps(i as nat),
        decreases n - i,
    {
        let p: String = part_name("encoder.encoder_transformer.layers.", i, "");
        put_all(&mut v, encoder_layer_schema(p.as_str()));
        i = i + 1;
    }
    v
}

fn acoustic_schema(n: usize) -> (r: Vec<Step>)
    ensures
        steps_of(r@) == acoustic_steps(n as nat),
{
    let mut v: Vec<Step> = no_steps();
    let mut i: usize = 0;
    while i < n
        invariant
            i <= n,
            steps_of(v@) == acoustic_steps(i as nat),
        decreases n - i,
    {
        let p: String = part_name(
            "encoder.quantizer.acoustic_residual_vector_quantizer.layers.",
            i,
            ".codebook",
        );
        put_all(&mut v, encoder_codebook_schema(p.as_str()));
        i = i + 1;
    }
    v
}

fn conv_stack_schema() -> (r: Vec<Step>)
    ensures
        steps_of(r@) == conv_stack_steps(),
{
    let mut v: Vec<Step> = no_steps();
    put_econv(&mut v, "encoder.encoder.layers.0.conv", 1);
    put_econv(&mut v, "encoder.encoder.layers.1.block.1.conv", 1);
    put_econv(&mut v, "encoder.encoder.layers.1.block.3.conv", 1);
    put_econv(&mut v, "encoder.encoder.layers.4.block.1.conv", 1);
    put_econv(&mut v, "encoder.encoder.layers.4.block.3.conv", 1);
    put_econv(&mut v, "encoder.encoder.layers.7.block.1.conv", 1);
    put_econv(&mut v, "encoder.encoder.layers.7.block.3.conv", 1);
    put_econv(&mut v, "encoder.encoder.layers.10.block.1.conv", 1);
    put_econv(&mut v, "encoder.encoder.layers.10.block.3.conv", 1);
    put_econv(&mut v, "encoder.encoder.layers.3.conv", STRIDE_1);
    put_econv(&mut v, "encoder.encoder.layers.6.conv", STRIDE_2);
    put_econv(&mut v, "encoder.encoder.layers.9.conv", STRIDE_3);
    put_econv(&mut v, "encoder.encoder.layers.12.conv", STRIDE_4);
    put_econv(&mut v, "encoder.encoder.layers.14.conv", 1);
    assert(Seq::<StepView>::empty() + econv_steps("encoder.encoder.layers.0.conv"@, 1)
        =~= econv_steps("encoder.encoder.layers.0.conv"@, 1));
    v
}

/// The encoder, with its weights checked.
#[derive(Clone, Copy, Debug)]
pub struct Encoder12Hz {}

/// The frame of semantic code and acoustic codes at a place.
pub open spec fn frame_at(semantic: Seq<u32>, acoustic: Seq<Seq<u32>>, i: int) -> Seq<u32> {
    seq![semantic[i]] + acoustic.map_values(|a: Seq<u32>| a[i])
}

impl Encoder12Hz {
    /// Checks that a file holds the encoder.
    pub fn load(wf: &WeightFile<'_>) -> (r: Result<Self, TtsError>)
        ensures
            match r {
                Ok(_) => first_error(wf@, encoder_steps()) is None,
                Err(e) => first_error(wf@, encoder_steps()) == Some(e@),
            },
    {
        let mut steps: Vec<Step> = conv_stack_schema();
        put_all(&mut steps, encoder_layers_schema(8));
        put_econv(&mut steps, "encoder.downsample.conv", DOWNSAMPLE_STRIDE);
        put_pointwise(
            &mut steps,
            "encoder.quantizer.semantic_residual_vector_quantizer.input_proj.weight".to_string(),
        );
        put_all(
            &mut steps,
            encoder_codebook_schema(
                "encoder.quantizer.semantic_residual_vector_quantizer.layers.0.codebook",
            ),
        );
        put_pointwise(
            &mut steps,
            "encoder.quantizer.acoustic_residual_vector_quantizer.input_proj.weight".to_string(),
        );
        put_all(&mut steps, acoustic_schema(15));
        check(wf, &steps)?;
        Ok(Encoder12Hz {  })
    }

    /// Refuses audio that is shorter than a frame; gives how many frames it is
    /// encoded to.
    pub fn encode(&self, samples: usize) -> (r: Result<usize, TtsError>)
        ensures
            match r {
                Ok(n) => {
                    &&& samples >= SAMPLES_PER_FRAME
                    &&& n == frames_of(samples as int)
                    &&& n == ceil_div(samples as int, SAMPLES_PER_FRAME as int)
                    &&& n >= 1
                },
                Err(e) => samples < SAMPLES_PER_FRAME && e@ == (ErrorView::ReferenceTooShort {
                    samples,
                    min_samples: SAMPLES_PER_FRAME,
                }),
            },
    {
        if samples < SAMPLES_PER_FRAME {
            return Err(
                TtsError::ReferenceTooShort { samples, min_samples: SAMPLES_PER_FRAME },
            );
        }
        Ok(frame_count(samples))
    }

    /// Puts the codes of each group together to frames, the semantic code
    /// first.
    pub fn frames(&self, semantic: &Vec<u32>, acoustic: &Vec<Vec<u32>>) -> (r: Vec<Vec<u32>>)
        requires
            forall|g: int|
                0 <= g < acoustic.len() ==> (#[trigger] acoustic[g]).len() >= semantic.len(),
        ensures
            codes_of(r@) == Seq::new(
                semantic.len() as nat,
                |i: int| frame_at(semantic@, codes_of(acoustic@), i),
            ),
    {
        let mut out: Vec<Vec<u32>> = Vec::new();
        let mut i: usize = 0;
        while i < semantic.len()
            invariant
                i <= semantic.len(),
                forall|g: int|
                    0 <= g < acoustic.len() ==> (#[trigger] acoustic[g]).len() >= semantic.len(),
                codes_of(out@) =~= Seq::new(
                    i as nat,
                    |i: int| frame_at(semantic@, codes_of(acoustic@), i),
                ),
            decreases semantic.len() - i,
        {
            let mut f: Vec<u32> = vec![semantic[i]];
            let mut g: usize = 0;
            let ghost want: Seq<u32> = codes_of(acoustic@).map_values(|a: Seq<u32>| a[i as int]);
            while g < acoustic.len()
                invariant
                    g <= acoustic.len(),
                    i < semantic.len(),
                    forall|g: int|
                        0 <= g < acoustic.len() ==> (#[trigger] acoustic[g]).len()
                            >= semantic.len(),
                    want == codes_of(acoustic@).map_values(|a: Seq<u32>| a[i as int]),
                    f@ =~= seq![semantic@[i as int]] + want.take(g as int),
                decreases acoustic.len() - g,
            {
                f.push(acoustic[g][i]);
                g = g + 1;
            }
            assert(want.take(g as int) =~= want);
            let ghost before: Seq<Vec<u32>> = out@;
            out.push(f);
            assert(codes_of(out@) =~= codes_of(before).push(f@));
            i = i + 1;
        }
        out
    }
}

/// Position `j` can be seen from position `i` by the encoder's transformer.
pub open spec fn within_window(i: int, j: int) -> bool {
    j <= i <= j + ATTENTION_WINDOW
}

/// The mask of the encoder's transformer over `n` positions, row by row: true
/// where a position can be seen.
pub fn window_mask(n: usize) -> (r: Vec<bool>)
    requires
        n * n <= usize::MAX,
        n + ATTENTION_WINDOW <= usize::MAX,
    ensures
        r.len() == n * n,
        forall|i: int, j: int|
            0 <= i < n && 0 <= j < n ==> #[trigger] r[i * n + j] == within_window(i, j),
{
    let mut out: Vec<bool> = Vec::new();
    let mut i: usize = 0;
    while i < n
        invariant
            i <= n,
            n + ATTENTION_WINDOW <= usize::MAX,
            out.len() == i * n,
            forall|a: int, b: int|
                0 <= a < i && 0 <= b < n ==> #[trigger] out[a * n + b] == within_window(a, b),
        decreases n - i,
    {
        let ghost before: Seq<bool> = out@;
        let mut j: usize = 0;
        while j < n
            invariant
                i < n,
                j <= n,
                n + ATTENTION_WINDOW <= usize::MAX,
                before.len() == i * n,
                out.len() == i * n + j,
                forall|k: int| 0 <= k < before.len() ==> #[trigger] out[k] == before[k],
                forall|b: int|
                    0 <= b < j ==> #[trigger] out[i * n + b] == within_window(i as int, b),
            decreases n - j,
        {
            out.push(!(j > i || j + ATTENTION_WINDOW < i));
            j = j + 1;
        }
        proof {
            assert(i * n + n == (i + 1) * n) by (nonlinear_arith);
            assert forall|a: int, b: int| 0 <= a < i + 1 && 0 <= b < n implies #[trigger] out[a * n
                + b] == within_window(a, b) by {
                if a < i {
                    assert(0 <= a * n + b < i * n) by (nonlinear_arith)
                        requires
                            0 <= a < i,
                            0 <= b < n,
                    ;
                    assert(before[a * n + b] == within_window(a, b));
                }
            }
        }
        i = i + 1;
    }
    out
}

/// `a` divided by `b`, rounded up.
pub open spec fn ceil_div(a: int, b: int) -> int {
    (a + b - 1) / b
}

/// How much a convolution pads its input of `t` samples: on the left so that it
/// sees no future, on the right up to a multiple of the stride.
pub fn conv_pads(t: usize, kernel: usize, stride: usize) -> (r: (usize, usize))
    requires
        1 <= stride <= kernel,
        t + stride <= usize::MAX,
    ensures
        r.0 == kernel - stride,
        r.1 == ceil_div(t as int, stride as int) * stride - t,
        r.1 < stride,
{
    let blocks: usize = (t + (stride - 1)) / stride;
    assert(t <= blocks * stride <= t + stride - 1) by (nonlinear_arith)
        requires
            blocks == (t + stride - 1) / stride as int,
            stride >= 1,
    ;
    (kernel - stride, blocks * stride - t)
}

/// The length of a convolution with a stride over `t` samples.
pub open spec fn strided_len(t: int, kernel: int, stride: int) -> int {
    (t - kernel) / stride + 1
}

/// A padded convolution gives one sample for each stride of its input, begun
/// ones included.
pub proof fn strides_divide_time(t: int, kernel: int, stride: int)
    requires
        t >= 1,
        1 <= stride <= kernel,
    ensures
        strided_len(
            t + (kernel - stride) + (ceil_div(t, stride) * stride - t),
            kernel,
            stride,
        ) == ceil_div(t, stride),
{
    let c = ceil_div(t, stride);
    assert(t + (kernel - stride) + (c * stride - t) - kernel == (c - 1) * stride)
        by (nonlinear_arith);
    vstd::arithmetic::div_mod::lemma_div_multiples_vanish(c - 1, stride);
    assert((c - 1) * stride == stride * (c - 1)) by (nonlinear_arith);
}

/// How many frames some samples are encoded to: one for every 1920, a begun one
/// included.
pub fn frame_count(samples: usize) -> (r: usize)
    ensures
        r == ceil_div(samples as int, SAMPLES_PER_FRAME as int),
        r == frames_of(samples as int),
{
    proof {
        samples_become_frames(samples as int);
    }
    let whole: usize = samples / SAMPLES_PER_FRAME;
    if samples % SAMPLES_PER_FRAME == 0 {
        whole
    } else {
        whole + 1
    }
}

/// The frames that `n` samples are encoded to.
pub open spec fn frames_of(n: int) -> int {
    ceil_div(
        ceil_div(
            ceil_div(ceil_div(ceil_div(n, STRIDE_1 as int), STRIDE_2 as int), STRIDE_3 as int),
            STRIDE_4 as int,
        ),
        DOWNSAMPLE_STRIDE as int,
    )
}

/// One frame for every 1920 samples, a begun one included.
pub proof fn samples_become_frames(n: int)
    requires
        n >= 0,
    ensures
        frames_of(n) == ceil_div(n, SAMPLES_PER_FRAME as int),
{
}

/// A frame holds the semantic code of its place first and then the code of each
/// acoustic group at that place.
pub proof fn frames_hold_a_code_of_each_group(
    semantic: Seq<u32>,
    acoustic: Seq<Seq<u32>>,
    i: int,
    g: int,
)
    requires
        0 <= g < acoustic.len(),
    ensures
        frame_at(semantic, acoustic, i).len() == 1 + acoustic.len(),
        frame_at(semantic, acoustic, i)[0] == semantic[i],
        frame_at(semantic, acoustic, i)[g + 1] == acoustic[g][i],
{
}

/// There are as many frames as it takes to cover the samples with 1920 each, and
/// no more; a position sees itself and at most 250 before it.
pub proof fn frames_cover_the_samples(n: int, i: int, j: int)
    requires
        n > 0,
    ensures
        (frames_of(n) - 1) * 1920 < n <= frames_of(n) * 1920,
        within_window(i, j) <==> j <= i && i - j <= 250,
        SAMPLES_PER_FRAME == 1920,
{
    samples_become_frames(n);
}

/// Rounding up gives the least number whose multiple is not below.
pub proof fn rounding_up_covers(a: int, b: int)
    requires
        a >= 0,
        b > 0,
    ensures
        (ceil_div(a, b) - 1) * b < a <= ceil_div(a, b) * b,
{
    let c = ceil_div(a, b);
    assert((c - 1) * b < a <= c * b) by (nonlinear_arith)
        requires
            c == (a + b - 1) / b,
            b > 0,
    ;
}

/// A convolution that can be loaded, with or without a bias, and whose kernel is
/// no shorter than its stride.
pub open spec fn has_conv(tensors: Tensors, p: Seq<char>, stride: int) -> bool {
    &&& loadable(tensors, p + ".weight"@, 3)
    &&& tensors[p + ".weight"@].shape[2] >= stride
    &&& tensors.contains_key(p + ".bias"@) ==> loadable(tensors, p + ".bias"@, 1)
}

/// A codebook that can be loaded.
pub open spec fn has_codebook(tensors: Tensors, p: Seq<char>) -> bool {
    &&& loadable(tensors, p + ".embed_sum"@, 2)
    &&& loadable(tensors, p + ".cluster_usage"@, 1)
}

/// A transformer layer that can be loaded.
pub open spec fn has_layer(tensors: Tensors, p: Seq<char>) -> bool {
    &&& loadable(tensors, p + ".input_layernorm.weight"@, 1)
    &&& loadable(tensors, p + ".input_layernorm.bias"@, 1)
    &&& loadable(tensors, p + ".self_attn.q_proj.weight"@, 2)
    &&& loadable(tensors, p + ".self_attn.k_proj.weight"@, 2)
    &&& loadable(tensors, p + ".self_attn.v_proj.weight"@, 2)
    &&& loadable(tensors, p + ".self_attn.o_proj.weight"@, 2)
    &&& loadable(tensors, p + ".self_attn_layer_scale.scale"@, 1)
    &&& loadable(tensors, p + ".post_attention_layernorm.weight"@, 1)
    &&& loadable(tensors, p + ".post_attention_layernorm.bias"@, 1)
    &&& loadable(tensors, p + ".mlp.fc1.weight"@, 2)
    &&& loadable(tensors, p + ".mlp.fc2.weight"@, 2)
    &&& loadable(tensors, p + ".mlp_layer_scale.scale"@, 1)
}

/// The convolutions around the transformer, with strides of 4, 5, 6 and 8 behind
/// the residual blocks.
pub open spec fn has_stack(tensors: Tensors) -> bool {
    &&& has_conv(tensors, "encoder.encoder.layers.0.conv"@, 1)
    &&& has_conv(tensors, "encoder.encoder.layers.1.block.1.conv"@, 1)
    &&& has_conv(tensors, "encoder.encoder.layers.1.block.3.conv"@, 1)
    &&& has_conv(tensors, "encoder.encoder.layers.4.block.1.conv"@, 1)
    &&& has_conv(tensors, "encoder.encoder.layers.4.block.3.conv"@, 1)
    &&& has_conv(tensors, "encoder.encoder.layers.7.block.1.conv"@, 1)
    &&& has_conv(tensors, "encoder.encoder.layers.7.block.3.conv"@, 1)
    &&& has_conv(tensors, "encoder.encoder.layers.10.block.1.conv"@, 1)
    &&& has_conv(tensors, "encoder.encoder.layers.10.block.3.conv"@, 1)
    &&& has_conv(tensors, "encoder.encoder.layers.3.conv"@, 4)
    &&& has_conv(tensors, "encoder.encoder.layers.6.conv"@, 5)
    &&& has_conv(tensors, "encoder.encoder.layers.9.conv"@, 6)
    &&& has_conv(tensors, "encoder.encoder.layers.12.conv"@, 8)
    &&& has_conv(tensors, "encoder.encoder.layers.14.conv"@, 1)
}

/// The prefix of a transformer layer.
pub open spec fn encoder_layer_name(i: int) -> Seq<char> {
    "encoder.encoder_transformer.layers."@ + digits(i as nat)
}

/// The prefix of an acoustic codebook.
pub open spec fn acoustic_name(i: int) -> Seq<char> {
    "encoder.quantizer.acoustic_residual_vector_quantizer.layers."@ + digits(i as nat)
        + ".codebook"@
}

proof fn lemma_conv(tensors: Tensors, p: Seq<char>, stride: int)
    ensures
        first_error(tensors, econv_steps(p, stride)) is None <==> has_conv(tensors, p, stride),
{
    let s = econv_steps(p, stride);
    crate::schema::passing_is_passing_each(tensors, s);
    assert(s.len() == 3);
    if first_error(tensors, s) is None {
        assert(crate::schema::step_error(tensors, s[0]) is None);
        assert(crate::schema::step_error(tensors, s[1]) is None);
        assert(crate::schema::step_error(tensors, s[2]) is None);
    }
    if has_conv(tensors, p, stride) {
        assert forall|i: int| 0 <= i < s.len() implies crate::schema::step_error(
            tensors,
            #[trigger] s[i],
        ) is None by {
            assert(i == 0 || i == 1 || i == 2);
        }
    }
}

proof fn lemma_codebook(tensors: Tensors, p: Seq<char>)
    ensures
        first_error(tensors, encoder_codebook_steps(p)) is None <==> has_codebook(tensors, p),
{
    let s = encoder_codebook_steps(p);
    crate::schema::passing_is_passing_each(tensors, s);
    assert(s.len() == 2);
    if first_error(tensors, s) is None {
        assert(crate::schema::step_error(tensors, s[0]) is None);
        assert(crate::schema::step_error(tensors, s[1]) is None);
    }
    if has_codebook(tensors, p) {
        assert forall|i: int| 0 <= i < s.len() implies crate::schema::step_error(
            tensors,
            #[trigger] s[i],
        ) is None by {
            assert(i == 0 || i == 1);
        }
    }
}

proof fn lemma_layer(tensors: Tensors, p: Seq<char>)
    ensures
        first_error(tensors, encoder_layer_steps(p)) is None <==> has_layer(tensors, p),
{
    let s = encoder_layer_steps(p);
    crate::schema::passing_is_passing_each(tensors, s);
    assert(s.len() == 12);
    if first_error(tensors, s) is None {
        assert(crate::schema::step_error(tensors, s[0]) is None);
        assert(crate::schema::step_error(tensors, s[1]) is None);
        assert(crate::schema::step_error(tensors, s[2]) is None);
        assert(crate::schema::step_error(tensors, s[3]) is None);
        assert(crate::schema::step_error(tensors, s[4]) is None);
        assert(crate::schema::step_error(tensors, s[5]) is None);
        assert(crate::schema::step_error(tensors, s[6]) is None);
        assert(crate::schema::step_error(tensors, s[7]) is None);
        assert(crate::schema::step_error(tensors, s[8]) is None);
        assert(crate::schema::step_error(tensors, s[9]) is None);
        assert(crate::schema::step_error(tensors, s[10]) is None);
        assert(crate::schema::step_error(tensors, s[11]) is None);
    }
    if has_layer(tensors, p) {
        assert forall|i: int| 0 <= i < s.len() implies crate::schema::step_error(
            tensors,
            #[trigger] s[i],
        ) is None by {
            assert(i == 0 || i == 1 || i == 2 || i == 3 || i == 4 || i == 5 || i == 6 || i == 7
                || i == 8 || i == 9 || i == 10 || i == 11);
        }
    }
}

proof fn lemma_layers(tensors: Tensors, n: nat)
    ensures
        first_error(tensors, encoder_layers_steps(n)) is None <==> forall|i: int|
            0 <= i < n ==> has_layer(tensors, #[trigger] encoder_layer_name(i)),
    decreases n,
{
    if n > 0 {
        let m = (n - 1) as nat;
        let p = part("encoder.encoder_transformer.layers."@, n - 1, ""@);
        lists_pass_together(tensors, encoder_layers_steps(m), encoder_layer_steps(p));
        lemma_layers(tensors, m);
        reveal_strlit("");
        assert(p =~= encoder_layer_name(n - 1));
        lemma_layer(tensors, p);
    }
}

proof fn lemma_acoustic(tensors: Tensors, n: nat)
    ensures
        first_error(tensors, acoustic_steps(n)) is None <==> forall|i: int|
            0 <= i < n ==> has_codebook(tensors, #[trigger] acoustic_name(i)),
    decreases n,
{
    if n > 0 {
        let m = (n - 1) as nat;
        lists_pass_together(
            tensors,
            acoustic_steps(m),
            encoder_codebook_steps(acoustic_name(n - 1)),
        );
        lemma_acoustic(tensors, m);
        lemma_codebook(tensors, acoustic_name(n - 1));
    }
}

proof fn lemma_stack(tensors: Tensors)
    ensures
        first_error(tensors, conv_stack_steps()) is None <==> has_stack(tensors),
{
    let v0 = econv_steps("encoder.encoder.layers.0.conv"@, 1);
    let v1 = econv_steps("encoder.encoder.layers.1.block.1.conv"@, 1);
    let v2 = econv_steps("encoder.encoder.layers.1.block.3.conv"@, 1);
    let v3 = econv_steps("encoder.encoder.layers.4.block.1.conv"@, 1);
    let v4 = econv_steps("encoder.encoder.layers.4.block.3.conv"@, 1);
    let v5 = econv_steps("encoder.encoder.layers.7.block.1.conv"@, 1);
    let v6 = econv_steps("encoder.encoder.layers.7.block.3.conv"@, 1);
    let v7 = econv_steps("encoder.encoder.layers.10.block.1.conv"@, 1);
    let v8 = econv_steps("encoder.encoder.layers.10.block.3.conv"@, 1);
    let v9 = econv_steps("encoder.encoder.layers.3.conv"@, 4);
    let v10 = econv_steps("encoder.encoder.layers.6.conv"@, 5);
    let v11 = econv_steps("encoder.encoder.layers.9.conv"@, 6);
    let v12 = econv_steps("encoder.encoder.layers.12.conv"@, 8);
    let v13 = econv_steps("encoder.encoder.layers.14.conv"@, 1);
    lists_pass_together(tensors, v0 + v1 + v2 + v3 + v4 + v5 + v6 + v7 + v8 + v9 + v10 + v11 + v12, v13);
    lists_pass_together(tensors, v0 + v1 + v2 + v3 + v4 + v5 + v6 + v7 + v8 + v9 + v10 + v11, v12);
    lists_pass_together(tensors, v0 + v1 + v2 + v3 + v4 + v5 + v6 + v7 + v8 + v9 + v10, v11);
    lists_pass_together(tensors, v0 + v1 + v2 + v3 + v4 + v5 + v6 + v7 + v8 + v9, v10);
    lists_pass_together(tensors, v0 + v1 + v2 + v3 + v4 + v5 + v6 + v7 + v8, v9);
    lists_pass_together(tensors, v0 + v1 + v2 + v3 + v4 + v5 + v6 + v7, v8);
    lists_pass_together(tensors, v0 + v1 + v2 + v3 + v4 + v5 + v6, v7);
    lists_pass_together(tensors, v0 + v1 + v2 + v3 + v4 + v5, v6);
    lists_pass_together(tensors, v0 + v1 + v2 + v3 + v4, v5);
    lists_pass_together(tensors, v0 + v1 + v2 + v3, v4);
    lists_pass_together(tensors, v0 + v1 + v2, v3);
    lists_pass_together(tensors, v0 + v1, v2);
    lists_pass_together(tensors, v0, v1);
    lemma_conv(tensors, "encoder.encoder.layers.0.conv"@, 1);
    lemma_conv(tensors, "encoder.encoder.layers.1.block.1.conv"@, 1);
    lemma_conv(tensors, "encoder.encoder.layers.1.block.3.conv"@, 1);
    lemma_conv(tensors, "encoder.encoder.layers.4.block.1.conv"@, 1);
    lemma_conv(tensors, "encoder.encoder.layers.4.block.3.conv"@, 1);
    lemma_conv(tensors, "encoder.encoder.layers.7.block.1.conv"@, 1);
    lemma_conv(tensors, "encoder.encoder.layers.7.block.3.conv"@, 1);
    lemma_conv(tensors, "encoder.encoder.layers.10.block.1.conv"@, 1);
    lemma_conv(tensors, "encoder.encoder.layers.10.block.3.conv"@, 1);
    lemma_conv(tensors, "encoder.encoder.layers.3.conv"@, 4);
    lemma_conv(tensors, "encoder.encoder.layers.6.conv"@, 5);
    lemma_conv(tensors, "encoder.encoder.layers.9.conv"@, 6);
    lemma_conv(tensors, "encoder.encoder.layers.12.conv"@, 8);
    lemma_conv(tensors, "encoder.encoder.layers.14.conv"@, 1);
}

/// A file passes the encoder's checks exactly where it has every part that the
/// encoder computes with: the convolutions, eight transformer layers, the
/// halving behind them, and for the semantic code and the fifteen acoustic ones
/// a projection and the codebooks.
pub proof fn checked_encoders_have_every_part(tensors: Tensors)
    ensures
        first_error(tensors, encoder_steps()) is None <==> {
            let (first, rest) = (
                "encoder.quantizer.semantic_residual_vector_quantizer.input_proj.weight"@,
                "encoder.quantizer.acoustic_residual_vector_quantizer.input_proj.weight"@,
            );
            &&& has_stack(tensors)
            &&& forall|i: int|
                0 <= i < 8 ==> has_layer(tensors, #[trigger] encoder_layer_name(i))
            &&& has_conv(tensors, "encoder.downsample.conv"@, 2)
            &&& loadable(tensors, first, 3) && tensors[first].shape[2] == 1
            &&& has_codebook(
                tensors,
                "encoder.quantizer.semantic_residual_vector_quantizer.layers.0.codebook"@,
            )
            &&& loadable(tensors, rest, 3) && tensors[rest].shape[2] == 1
            &&& forall|i: int| 0 <= i < 15 ==> has_codebook(tensors, #[trigger] acoustic_name(i))
        },
{
    let a = conv_stack_steps();
    let b = encoder_layers_steps(8);
    let c = econv_steps("encoder.downsample.conv"@, 2);
    let d = pointwise_steps(
        "encoder.quantizer.semantic_residual_vector_quantizer.input_proj.weight"@,
    );
    let e = encoder_codebook_steps(
        "encoder.quantizer.semantic_residual_vector_quantizer.layers.0.codebook"@,
    );
    let f = pointwise_steps(
        "encoder.quantizer.acoustic_residual_vector_quantizer.input_proj.weight"@,
    );
    let g = acoustic_steps(15);
    lists_pass_together(tensors, a + b + c + d + e + f, g);
    lists_pass_together(tensors, a + b + c + d + e, f);
    lists_pass_together(tensors, a + b + c + d, e);
    lists_pass_together(tensors, a + b + c, d);
    lists_pass_together(tensors, a + b, c);
    lists_pass_together(tensors, a, b);
    lemma_stack(tensors);
    lemma_layers(tensors, 8);
    lemma_conv(tensors, "encoder.downsample.conv"@, 2);
    short_lists_ask_for_a_rank(
        tensors,
        "encoder.quantizer.semantic_residual_vector_quantizer.input_proj.weight"@,
        3,
    );
    lemma_codebook(
        tensors,
        "encoder.quantizer.semantic_residual_vector_quantizer.layers.0.codebook"@,
    );
    short_lists_ask_for_a_rank(
        tensors,
        "encoder.quantizer.acoustic_residual_vector_quantizer.input_proj.weight"@,
        3,
    );
    lemma_acoustic(tensors, 15);
}

/// What is told of a file that is no encoder is the first fault in the
/// convolutions, then in the layers, in the halving behind them, in what the
/// semantic code takes, and in what the acoustic codes take.
pub proof fn encoders_are_checked_part_by_part(tensors: Tensors)
    ensures
        first_error(tensors, encoder_steps()) == crate::schema::first_told(
            seq![
                first_error(tensors, conv_stack_steps()),
                first_error(tensors, encoder_layers_steps(8)),
                first_error(tensors, econv_steps("encoder.downsample.conv"@, 2)),
                first_error(tensors, pointwise_steps(
                    "encoder.quantizer.semantic_residual_vector_quantizer.input_proj.weight"@,
                )),
                first_error(tensors, encoder_codebook_steps(
                    "encoder.quantizer.semantic_residual_vector_quantizer.layers.0.codebook"@,
                )),
                first_error(tensors, pointwise_steps(
                    "encoder.quantizer.acoustic_residual_vector_quantizer.input_proj.weight"@,
                )),
                first_error(tensors, acoustic_steps(15)),
            ],
        ),
{
    let a = conv_stack_steps();
    let b = encoder_layers_steps(8);
    let c = econv_steps("encoder.downsample.conv"@, 2);
    let d = pointwise_steps(
        "encoder.quantizer.semantic_residual_vector_quantizer.input_proj.weight"@,
    );
    let e = encoder_codebook_steps(
        "encoder.quantizer.semantic_residual_vector_quantizer.layers.0.codebook"@,
    );
    let f = pointwise_steps(
        "encoder.quantizer.acoustic_residual_vector_quantizer.input_proj.weight"@,
    );
    let g = acoustic_steps(15);
    crate::schema::lists_pass_together(tensors, a + b + c + d + e + f, g);
    crate::schema::lists_pass_together(tensors, a + b + c + d + e, f);
    crate::schema::lists_pass_together(tensors, a + b + c + d, e);
    crate::schema::lists_pass_together(tensors, a + b + c, d);
    crate::schema::lists_pass_together(tensors, a + b, c);
    crate::schema::lists_pass_together(tensors, a, b);
    reveal_with_fuel(crate::schema::first_told, 8);
}

} // verus!
