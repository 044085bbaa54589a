//! The 12 Hz decoder: which weights it needs, which frames it takes, and which
//! samples of what it computes belong to them.

use crate::error::{ErrorView, TtsError};
use crate::ieee::Single;
use crate::pipeline::codes_of;
use crate::schema::{
    check, extent, extent_in, first_error, lists_pass_together, load_steps, loadable,
    no_steps, part, part_name, pointwise_steps, put, put_all, put_load, put_pointwise, put_vector,
    short_lists_ask_for_a_rank, steps_of, under, vector_steps, Dim, DimView, Step, StepView,
    Tensors,
};
use crate::text::{decimal, digits};
use crate::weights::WeightFile;
use vstd::prelude::*;

verus! {

/// Left-context frames the streaming upsampling window keeps.
pub const UPSAMPLE_CTX_FRAMES: usize = 40;

/// Heads of the transformer before the upsampling.
pub const PT_HEADS: usize = 16;

/// Their width.
pub const PT_HEAD_DIM: usize = 64;

/// Width of all heads together.
pub const PT_WIDTH: usize = 1024;

/// The fewest frames that are decoded at once.
pub const MIN_BUCKET: usize = 32;

/// Samples that a frame upsamples to: twice two, then eight, five, four and
/// three.
pub const SAMPLES_PER_FRAME: usize = 1920;

/// The checks of a convolution; its bias may be absent.
pub open spec fn conv_steps(p: Seq<char>) -> Seq<StepView> {
    seq![
        StepView::Load { name: p + ".weight"@, rank: 3 },
        StepView::Optional { name: p + ".bias"@ },
    ]
}

/// The checks of a transposed convolution; its kernel is no shorter than its
/// stride.
pub open spec fn tconv_steps(p: Seq<char>, stride: int) -> Seq<StepView> {
    seq![
        StepView::Load { name: p + ".weight"@, rank: 3 },
        StepView::Kernel { name: p + ".weight"@, stride },
        StepView::Load { name: p + ".bias"@, rank: 1 },
    ]
}

/// The checks of a snake activation; both parameters have the same length.
pub open spec fn snake_steps(p: Seq<char>) -> Seq<StepView> {
    seq![
        StepView::Load { name: p + ".alpha"@, rank: 1 },
        StepView::Load { name: p + ".beta"@, rank: 1 },
        StepView::Vector {
            name: p + ".beta"@,
            len: DimView::SameAs { name: p + ".alpha"@, axis: 0 },
        },
    ]
}

/// The checks of a ConvNeXt block.
pub open spec fn next_steps(p: Seq<char>) -> Seq<StepView> {
    conv_steps(p + ".dwconv.conv"@) + load_steps(p + ".norm.weight"@, 1) + load_steps(
        p + ".norm.bias"@,
        1,
    ) + load_steps(p + ".pwconv1.weight"@, 2) + load_steps(p + ".pwconv1.bias"@, 1) + load_steps(
        p + ".pwconv2.weight"@,
        2,
    ) + load_steps(p + ".pwconv2.bias"@, 1) + load_steps(p + ".gamma"@, 1)
}

/// The checks of a codebook: a usage count for each entry.
pub open spec fn codebook_steps(p: Seq<char>) -> Seq<StepView> {
    seq![
        StepView::Load { name: p + ".embedding_sum"@, rank: 2 },
        StepView::Load { name: p + ".cluster_usage"@, rank: 1 },
        StepView::Vector {
            name: p + ".cluster_usage"@,
            len: DimView::SameAs { name: p + ".embedding_sum"@, axis: 0 },
        },
    ]
}

/// The check of a projection to all heads.
pub open spec fn heads_step(name: Seq<char>) -> StepView {
    StepView::Matrix {
        name,
        rows: DimView::Exactly(PT_WIDTH as int),
        cols: DimView::Free("hidden"@),
    }
}

/// The checks of the transformer layer under `p`.
pub open spec fn pre_layer_steps(p: Seq<char>) -> Seq<StepView> {
    let (q, k, v) = (
        p + ".self_attn.q_proj.weight"@,
        p + ".self_attn.k_proj.weight"@,
        p + ".self_attn.v_proj.weight"@,
    );
    seq![
        StepView::Load { name: q, rank: 2 },
        StepView::Load { name: k, rank: 2 },
        StepView::Load { name: v, rank: 2 },
        heads_step(q),
        heads_step(k),
        heads_step(v),
        StepView::Load { name: p + ".input_layernorm.weight"@, rank: 1 },
        StepView::Load { name: p + ".self_attn.o_proj.weight"@, rank: 2 },
        StepView::Load { name: p + ".self_attn_layer_scale.scale"@, rank: 1 },
        StepView::Load { name: p + ".post_attention_layernorm.weight"@, rank: 1 },
        StepView::Load { name: p + ".mlp.gate_proj.weight"@, rank: 2 },
        StepView::Load { name: p + ".mlp.up_proj.weight"@, rank: 2 },
        StepView::Load { name: p + ".mlp.down_proj.weight"@, rank: 2 },
        StepView::Load { name: p + ".mlp_layer_scale.scale"@, rank: 1 },
    ]
}

/// Adds the checks of a convolution.
pub fn put_conv(v: &mut Vec<Step>, p: &str)
    ensures
        steps_of(final(v)@) == steps_of(old(v)@) + conv_steps(p@),
{
    put(v, Step::Load { name: under(p, ".weight"), rank: 3 });
    put(v, Step::Optional { name: under(p, ".bias") });
    assert(steps_of(v@) =~= steps_of(old(v)@) + conv_steps(p@));
}

/// Adds the checks of a transposed convolution.
pub fn put_tconv(v: &mut Vec<Step>, p: &str, stride: usize)
    ensures
        steps_of(final(v)@) == steps_of(old(v)@) + tconv_steps(p@, stride as int),
{
    put(v, Step::Load { name: under(p, ".weight"), rank: 3 });
    put(v, Step::Kernel { name: under(p, ".weight"), stride });
    put(v, Step::Load { name: under(p, ".bias"), rank: 1 });
    assert(steps_of(v@) =~= steps_of(old(v)@) + tconv_steps(p@, stride as int));
}

/// Adds the checks of a snake activation.
pub fn put_snake(v: &mut Vec<Step>, p: &str)
    ensures
        steps_of(final(v)@) == steps_of(old(v)@) + snake_steps(p@),
{
    put(v, Step::Load { name: under(p, ".alpha"), rank: 1 });
    put(v, Step::Load { name: under(p, ".beta"), rank: 1 });
    put(
        v,
        Step::Vector {
            name: under(p, ".beta"),
            len: Dim::SameAs { name: under(p, ".alpha"), axis: 0 },
        },
    );
    assert(steps_of(v@) =~= steps_of(old(v)@) + snake_steps(p@));
}

/// Adds the checks of a codebook.
pub fn put_codebook(v: &mut Vec<Step>, p: &str)
    ensures
        steps_of(final(v)@) == steps_of(old(v)@) + codebook_steps(p@),
{
    put(v, Step::Load { name: under(p, ".embedding_sum"), rank: 2 });
    put(v, Step::Load { name: under(p, ".cluster_usage"), rank: 1 });
    put(
        v,
        Step::Vector {
            name: under(p, ".cluster_usage"),
            len: Dim::SameAs { name: under(p, ".embedding_sum"), axis: 0 },
        },
    );
    assert(steps_of(v@) =~= steps_of(old(v)@) + codebook_steps(p@));
}

fn next_schema(p: &str) -> (r: Vec<Step>)
    ensures
        steps_of(r@) == next_steps(p@),
{
    let mut v: Vec<Step> = no_steps();
    put_conv(&mut v, under(p, ".dwconv.conv").as_str());
    put_load(&mut v, under(p, ".norm.weight"), 1);
    put_load(&mut v, under(p, ".norm.bias"), 1);
    put_load(&mut v, under(p, ".pwconv1.weight"), 2);
    put_load(&mut v, under(p, ".pwconv1.bias"), 1);
    put_load(&mut v, under(p, ".pwconv2.weight"), 2);
    put_load(&mut v, under(p, ".pwconv2.bias"), 1);
    put_load(&mut v, under(p, ".gamma"), 1);
    assert(Seq::<StepView>::empty() + conv_steps(p@ + ".dwconv.conv"@) =~= conv_steps(
        p@ + ".dwconv.conv"@,
    ));
    v
}

fn heads_check(name: String) -> (r: Step)
    ensures
        r@ == heads_step(name@),
{
    Step::Matrix {
        name,
        rows: Dim::Exactly(PT_WIDTH),
        cols: Dim::Free("hidden".to_string()),
    }
}

fn pre_layer_schema(p: &str) -> (r: Vec<Step>)
    ensures
        steps_of(r@) == pre_layer_steps(p@),
{
    let mut v: Vec<Step> = no_steps();
    put(&mut v, Step::Load { name: under(p, ".self_attn.q_proj.weight"), rank: 2 });
    put(&mut v, Step::Load { name: under(p, ".self_attn.k_proj.weight"), rank: 2 });
    put(&mut v, Step::Load { name: under(p, ".self_attn.v_proj.weight"), rank: 2 });
    put(&mut v, heads_check(under(p, ".self_attn.q_proj.weight")));
    put(&mut v, heads_check(under(p, ".self_attn.k_proj.weight")));
    put(&mut v, heads_check(under(p, ".self_attn.v_proj.weight")));
    put(&mut v, Step::Load { name: under(p, ".input_layernorm.weight"), rank: 1 });
    put(&mut v, Step::Load { name: under(p, ".self_attn.o_proj.weight"), rank: 2 });
    put(&mut v, Step::Load { name: under(p, ".self_attn_layer_scale.scale"), rank: 1 });
    put(&mut v, Step::Load { name: under(p, ".post_attention_layernorm.weight"), rank: 1 });
    put(&mut v, Step::Load { name: under(p, ".mlp.gate_proj.weight"), rank: 2 });
    put(&mut v, Step::Load { name: under(p, ".mlp.up_proj.weight"), rank: 2 });
    put(&mut v, Step::Load { name: under(p, ".mlp.down_proj.weight"), rank: 2 });
    put(&mut v, Step::Load { name: under(p, ".mlp_layer_scale.scale"), rank: 1 });
    assert(steps_of(v@) =~= pre_layer_steps(p@));
    v
}

/// The checks of the first `n` transformer layers.
pub open spec fn pre_layers_steps(n: nat) -> Seq<StepView>
    decreases n,
{
    if n == 0 {
        Seq::empty()
    } else {
        pre_layers_steps((n - 1) as nat) + pre_layer_steps(
            part("decoder.pre_transformer.layers."@, n - 1, ""@),
        )
    }
}

/// The checks of a residual unit.
pub open spec fn unit_steps(p: Seq<char>) -> Seq<StepView> {
    snake_steps(p + ".act1"@) + conv_steps(p + ".conv1.conv"@) + snake_steps(p + ".act2"@)
        + conv_steps(p + ".conv2.conv"@)
}

/// The checks of an upsampling block with a given rate: an activation, the
/// transposed convolution, three residual units.
pub open spec fn block_steps(p: Seq<char>, rate: int) -> Seq<StepView> {
    snake_steps(p + ".block.0"@) + tconv_steps(p + ".block.1.conv"@, rate) + unit_steps(
        p + ".block.2"@,
    ) + unit_steps(p + ".block.3"@) + unit_steps(p + ".block.4"@)
}

/// The prefix of a codebook: the semantic one first.
pub open spec fn codebook_name(g: int) -> Seq<char> {
    if g == 0 {
        "decoder.quantizer.rvq_first.vq.layers.0._codebook"@
    } else {
        part("decoder.quantizer.rvq_rest.vq.layers."@, g - 1, "._codebook"@)
    }
}

/// The checks of the first `n` codebooks.
pub open spec fn codebooks_steps(n: nat) -> Seq<StepView>
    decreases n,
{
    if n == 0 {
        Seq::empty()
    } else {
        codebooks_steps((n - 1) as nat) + codebook_steps(codebook_name(n - 1))
    }
}

/// Codebooks: one semantic, fifteen acoustic.
pub const CODEBOOKS: usize = 16;

/// The checks of what is neither layer, block nor codebook.
pub open spec fn frame_steps() -> Seq<StepView> {
    pointwise_steps("decoder.quantizer.rvq_first.output_proj.weight"@) + pointwise_steps(
        "decoder.quantizer.rvq_rest.output_proj.weight"@,
    ) + conv_steps("decoder.pre_conv.conv"@) + load_steps(
        "decoder.pre_transformer.input_proj.weight"@,
        2,
    ) + load_steps("decoder.pre_transformer.input_proj.bias"@, 1) + load_steps(
        "decoder.pre_transformer.norm.weight"@,
        1,
    ) + load_steps("decoder.pre_transformer.output_proj.weight"@, 2) + load_steps(
        "decoder.pre_transformer.output_proj.bias"@,
        1,
    ) + tconv_steps("decoder.upsample.0.0.conv"@, 2) + tconv_steps(
        "decoder.upsample.1.0.conv"@,
        2,
    ) + next_steps("decoder.upsample.0.1"@) + next_steps("decoder.upsample.1.1"@) + conv_steps(
        "decoder.decoder.0.conv"@,
    ) + snake_steps("decoder.decoder.5"@) + conv_steps("decoder.decoder.6.conv"@)
}

/// All checks of the decoder, in order.
pub open spec fn decoder_steps() -> Seq<StepView> {
    pre_layers_steps(8) + block_steps("decoder.decoder.1"@, 8) + block_steps(
        "decoder.decoder.2"@,
        5,
    ) + block_steps("decoder.decoder.3"@, 4) + block_steps("decoder.decoder.4"@, 3)
        + codebooks_steps(CODEBOOKS as nat) + frame_steps()
}

fn pre_layers_schema(n: usize) -> (r: Vec<Step>)
    ensures
        steps_of(r@) == pre_layers_steps(n as nat),
{
    let mut v: Vec<Step> = no_steps();
    let mut i: usize = 0;
    while i < n
        invariant
            i <= n,
            steps_of(v@) == pre_layers_steps(i as nat),
        decreases n - i,
    {
        let p: String = part_name("decoder.pre_transformer.layers.", i, "");
        put_all(&mut v, pre_layer_schema(p.as_str()));
        i = i + 1;
    }
    v
}

fn unit_schema(p: &str) -> (r: Vec<Step>)
    ensures
        steps_of(r@) == unit_steps(p@),
{
    let mut v: Vec<Step> = no_steps();
    put_snake(&mut v, under(p, ".act1").as_str());
    put_conv(&mut v, under(p, ".conv1.conv").as_str());
    put_snake(&mut v, under(p, ".act2").as_str());
    put_conv(&mut v, under(p, ".conv2.conv").as_str());
    assert(Seq::<StepView>::empty() + snake_steps(p@ + ".act1"@) =~= snake_steps(p@ + ".act1"@));
    v
}

fn block_schema(p: &str, rate: usize) -> (r: Vec<Step>)
    ensures
        steps_of(r@) == block_steps(p@, rate as int),
{
    let mut v: Vec<Step> = no_steps();
    put_snake(&mut v, under(p, ".block.0").as_str());
    put_tconv(&mut v, under(p, ".block.1.conv").as_str(), rate);
    put_all(&mut v, unit_schema(under(p, ".block.2").as_str()));
    put_all(&mut v, unit_schema(under(p, ".block.3").as_str()));
    put_all(&mut v, unit_schema(under(p, ".block.4").as_str()));
    assert(Seq::<StepView>::empty() + snake_steps(p@ + ".block.0"@) =~= snake_steps(
        p@ + ".block.0"@,
    ));
    v
}

fn codebook_prefix(g: usize) -> (r: String)
    ensures
        r@ == codebook_name(g as int),
{
    if g == 0 {
        "decoder.quantizer.rvq_first.vq.layers.0._codebook".to_string()
    } else {
        part_name("decoder.quantizer.rvq_rest.vq.layers.", g - 1, "._codebook")
    }
}

fn codebooks_schema(n: usize) -> (r: Vec<Step>)
    ensures
        steps_of(r@) == codebooks_steps(n as nat),
{
    let mut v: Vec<Step> = no_steps();
    let mut g: usize = 0;
    while g < n
        invariant
            g <= n,
            steps_of(v@) == codebooks_steps(g as nat),
        decreases n - g,
    {
        put_codebook(&mut v, codebook_prefix(g).as_str());
        g = g + 1;
    }
    v
}

fn frame_schema() -> (r: Vec<Step>)
    ensures
        steps_of(r@) == frame_steps(),
{
    let mut v: Vec<Step> = no_steps();
    put_pointwise(&mut v, "decoder.quantizer.rvq_first.output_proj.weight".to_string());
    put_pointwise(&mut v, "decoder.quantizer.rvq_rest.output_proj.weight".to_string());
    put_conv(&mut v, "decoder.pre_conv.conv");
    put_load(&mut v, "decoder.pre_transformer.input_proj.weight".to_string(), 2);
    put_load(&mut v, "decoder.pre_transformer.input_proj.bias".to_string(), 1);
    put_load(&mut v, "decoder.pre_transformer.norm.weight".to_string(), 1);
    put_load(&mut v, "decoder.pre_transformer.output_proj.weight".to_string(), 2);
    put_load(&mut v, "decoder.pre_transformer.output_proj.bias".to_string(), 1);
    put_tconv(&mut v, "decoder.upsample.0.0.conv", 2);
    put_tconv(&mut v, "decoder.upsample.1.0.conv", 2);
    put_all(&mut v, next_schema("decoder.upsample.0.1"));
    put_all(&mut v, next_schema("decoder.upsample.1.1"));
    put_conv(&mut v, "decoder.decoder.0.conv");
    put_snake(&mut v, "decoder.decoder.5");
    put_conv(&mut v, "decoder.decoder.6.conv");
    assert(Seq::<StepView>::empty() + pointwise_steps(
        "decoder.quantizer.rvq_first.output_proj.weight"@,
    ) =~= pointwise_steps("decoder.quantizer.rvq_first.output_proj.weight"@));
    v
}

/// The decoder, with its weights checked.
#[derive(Debug)]
pub struct Decoder12Hz {
    /// The number of entries of each codebook.
    cb_sizes: Vec<usize>,
}

/// The entries of each codebook of a file.
pub open spec fn codebook_sizes(tensors: Tensors) -> Seq<int> {
    Seq::new(
        CODEBOOKS as nat,
        |g: int| extent_in(tensors, codebook_name(g) + ".embedding_sum"@, 0),
    )
}

impl View for Decoder12Hz {
    type V = Seq<int>;

    closed spec fn view(&self) -> Seq<int> {
        self.cb_sizes@.map_values(|n: usize| n as int)
    }
}

/// A frame with another number of codes.
pub open spec fn frame_length_error(i: int, len: int, groups: int) -> ErrorView {
    ErrorView::InvalidFrames(
        "frame "@ + digits(i as nat) + " has "@ + digits(len as nat) + " codes, expected "@
            + digits(groups as nat),
    )
}

/// A code that its codebook has no entry for.
pub open spec fn frame_code_error(i: int, g: int, code: int, size: int) -> ErrorView {
    ErrorView::InvalidFrames(
        "frame "@ + digits(i as nat) + " code "@ + digits(g as nat) + " is "@ + digits(code as nat)
            + ", codebook has "@ + digits(size as nat) + " entries"@,
    )
}

/// The first code from `g` on that its codebook has no entry for.
pub open spec fn first_bad_code(frame: Seq<u32>, sizes: Seq<int>, g: int) -> Option<int>
    decreases frame.len() - g,
{
    if g >= frame.len() {
        None
    } else if frame[g] >= sizes[g] {
        Some(g)
    } else {
        first_bad_code(frame, sizes, g + 1)
    }
}

/// What is wrong with the first frame from `i` on that is wrong.
pub open spec fn frames_error_from(frames: Seq<Seq<u32>>, sizes: Seq<int>, i: int) -> Option<
    ErrorView,
>
    decreases frames.len() - i,
{
    if i >= frames.len() {
        None
    } else if frames[i].len() != sizes.len() {
        Some(frame_length_error(i, frames[i].len() as int, sizes.len() as int))
    } else {
        match first_bad_code(frames[i], sizes, 0) {
            Some(g) => Some(frame_code_error(i, g, frames[i][g] as int, sizes[g])),
            None => frames_error_from(frames, sizes, i + 1),
        }
    }
}

/// The least of 32, 64, 128 and so on, from `t` on, that is not below `n`.
pub open spec fn bucket_from(n: int, t: int) -> int
    decreases
            if t < n {
                n - t
            } else {
                0
            },
{
    if t >= n || t <= 0 {
        t
    } else {
        bucket_from(n, 2 * t)
    }
}

/// How many frames are computed for `n`: a power of two, at least 32, so that
/// the decoder sees few shapes. It is causal, so what is computed for the
/// padding can be dropped.
pub open spec fn bucket_of(n: int) -> int {
    bucket_from(n, MIN_BUCKET as int)
}

/// How many frames are computed for `n`.
pub fn bucket(n: usize) -> (r: usize)
    requires
        n <= usize::MAX / 2,
    ensures
        r == bucket_of(n as int),
        r >= n,
        r >= MIN_BUCKET,
{
    let mut t: usize = MIN_BUCKET;
    while t < n
        invariant
            n <= usize::MAX / 2,
            t >= MIN_BUCKET,
            bucket_of(n as int) == bucket_from(n as int, t as int),
        decreases
                if t < n {
                    n - t
                } else {
                    0
                },
    {
        t = 2 * t;
    }
    t
}

/// What a decode computes, and which of it is kept.
#[derive(Clone, Copy, PartialEq, Eq, Debug, Structural)]
pub struct DecodePlan {
    /// Frames that the transformer runs over, padding included.
    pub frames: usize,
    /// The first frame that is upsampled.
    pub window_from: usize,
    /// Frames that are upsampled, without padding.
    pub window_len: usize,
    /// Frames that are upsampled, padding included.
    pub window_frames: usize,
    /// Upsampled frames that only give context.
    pub context: usize,
}

/// The plan of a decode of all `n` frames.
pub open spec fn whole_plan(n: int) -> DecodePlan {
    DecodePlan {
        frames: bucket_of(n) as usize,
        window_from: 0,
        window_len: n as usize,
        window_frames: bucket_of(n) as usize,
        context: 0,
    }
}

/// The first frame that is upsampled where samples are kept from a frame on.
pub open spec fn window_start(keep_from: int) -> int {
    if keep_from < UPSAMPLE_CTX_FRAMES {
        0
    } else {
        keep_from - UPSAMPLE_CTX_FRAMES
    }
}

/// The plan of a decode of `n` frames of which samples are kept from
/// `keep_from` on: attention over all of them, so that the voice cannot drift
/// between chunks, but upsampling over a window only.
pub open spec fn tail_plan(n: int, keep_from: int) -> DecodePlan {
    let from = window_start(keep_from);
    DecodePlan {
        frames: bucket_of(n) as usize,
        window_from: from as usize,
        window_len: (n - from) as usize,
        window_frames: bucket_of(n - from) as usize,
        context: (keep_from - from) as usize,
    }
}

/// The plan of a decode of `n` frames, if there are any.
pub open spec fn plan_all(n: int) -> Option<DecodePlan> {
    if n == 0 {
        None
    } else {
        Some(whole_plan(n))
    }
}

/// The plan of a decode of `n` frames of which samples are kept from
/// `keep_from` on, if there are any.
pub open spec fn plan_from(n: int, keep_from: int) -> Option<DecodePlan> {
    if keep_from >= n {
        None
    } else {
        Some(tail_plan(n, keep_from))
    }
}

/// 1.0, as a bit pattern.
pub const FULL_SCALE: u32 = 0x3f80_0000;

/// -1.0, as a bit pattern.
pub const NEGATIVE_FULL_SCALE: u32 = 0xbf80_0000;

/// A sample brought into the range from -1 to 1; what is not a number stays.
pub open spec fn clamped(v: Single) -> Single {
    if v.less(Single { bits: NEGATIVE_FULL_SCALE }) {
        Single { bits: NEGATIVE_FULL_SCALE }
    } else if (Single { bits: FULL_SCALE }).less(v) {
        Single { bits: FULL_SCALE }
    } else {
        v
    }
}

/// A sample from -1 to 1, or what is not a number.
pub open spec fn in_range(v: Single) -> bool {
    v.nan() || (!v.less(Single { bits: NEGATIVE_FULL_SCALE }) && !(Single {
        bits: FULL_SCALE,
    }).less(v))
}

/// What is kept of the samples that a plan's window was upsampled to, brought
/// into range; nothing without a plan.
pub open spec fn kept_samples(plan: Option<DecodePlan>, upsampled: Seq<Single>) -> Seq<Single> {
    match plan {
        None => Seq::empty(),
        Some(p) => {
            let per_frame = p.per_frame(upsampled.len() as int);
            upsampled.subrange(p.context * per_frame, p.window_len * per_frame).map_values(
                |v: Single| clamped(v),
            )
        },
    }
}

impl DecodePlan {
    /// A plan whose parts fit.
    pub open spec fn wf(self) -> bool {
        &&& self.window_frames > 0
        &&& self.context < self.window_len <= self.window_frames
    }

    /// Samples per upsampled frame.
    pub open spec fn per_frame(self, samples: int) -> int {
        samples / self.window_frames as int
    }

    /// Which of the upsampled samples are kept.
    pub fn kept(&self, samples: usize) -> (r: (usize, usize))
        requires
            self.wf(),
        ensures
            r.0 == self.context * self.per_frame(samples as int),
            r.1 == self.window_len * self.per_frame(samples as int),
            r.0 <= r.1 <= samples,
    {
        let per_frame: usize = samples / self.window_frames;
        assert(0 <= self.context * per_frame <= self.window_len * per_frame <= self.window_frames
            * per_frame <= samples) by (nonlinear_arith)
            requires
                self.context <= self.window_len <= self.window_frames,
                per_frame == samples / self.window_frames,
                self.window_frames > 0,
        ;
        (self.context * per_frame, self.window_len * per_frame)
    }

    /// The samples of a decode: those that are kept of the upsampled ones,
    /// brought into range.
    pub fn keep(&self, upsampled: &[Single]) -> (r: Vec<Single>)
        requires
            self.wf(),
        ensures
            r@ == kept_samples(Some(*self), upsampled@),
    {
        let (a, b): (usize, usize) = self.kept(upsampled.len());
        let low: Single = Single { bits: NEGATIVE_FULL_SCALE };
        let high: Single = Single { bits: FULL_SCALE };
        let ghost want: Seq<Single> = kept_samples(Some(*self), upsampled@);
        let mut out: Vec<Single> = Vec::new();
        let mut i: usize = a;
        while i < b
            invariant
                a <= i <= b <= upsampled.len(),
                low == (Single { bits: NEGATIVE_FULL_SCALE }),
                high == (Single { bits: FULL_SCALE }),
                want == upsampled@.subrange(a as int, b as int).map_values(
                    |v: Single| clamped(v),
                ),
                out@ =~= want.take(i - a),
            decreases b - i,
        {
            let v: Single = upsampled[i];
            if v.lt(low) {
                out.push(low);
            } else if high.lt(v) {
                out.push(high);
            } else {
                out.push(v);
            }
            i = i + 1;
        }
        assert(out@ =~= want);
        out
    }
}

/// Frame `i` of a block that is padded with its last frame.
pub open spec fn padded_frame(frames: Seq<Seq<u32>>, i: int) -> Seq<u32> {
    if i < frames.len() {
        frames[i]
    } else {
        frames.last()
    }
}

/// The codes of each group, over a block that is padded to `t` frames.
pub open spec fn padded_groups(frames: Seq<Seq<u32>>, groups: nat, t: nat) -> Seq<Seq<u32>> {
    Seq::new(groups, |g: int| Seq::new(t, |i: int| padded_frame(frames, i)[g]))
}

impl Decoder12Hz {
    /// Checks that a file holds the decoder.
    pub fn load(wf: &WeightFile<'_>) -> (r: Result<Self, TtsError>)
        ensures
            match r {
                Ok(d) => first_error(wf@, decoder_steps()) is None && d@ == codebook_sizes(wf@),
                Err(e) => first_error(wf@, decoder_steps()) == Some(e@),
            },
    {
        let mut steps: Vec<Step> = pre_layers_schema(8);
        put_all(&mut steps, block_schema("decoder.decoder.1", 8));
        put_all(&mut steps, block_schema("decoder.decoder.2", 5));
        put_all(&mut steps, block_schema("decoder.decoder.3", 4));
        put_all(&mut steps, block_schema("decoder.decoder.4", 3));
        put_all(&mut steps, codebooks_schema(CODEBOOKS));
        put_all(&mut steps, frame_schema());
        check(wf, &steps)?;
        let mut cb_sizes: Vec<usize> = Vec::new();
        let mut g: usize = 0;
        while g < CODEBOOKS
            invariant
                g <= CODEBOOKS,
                cb_sizes.len() == g,
                forall|k: int| 0 <= k < g ==> #[trigger] cb_sizes[k] == codebook_sizes(wf@)[k],
            decreases CODEBOOKS - g,
        {
            let name: String = under(codebook_prefix(g).as_str(), ".embedding_sum");
            cb_sizes.push(extent(wf, name.as_str(), 0));
            g = g + 1;
        }
        let d: Decoder12Hz = Decoder12Hz { cb_sizes };
        assert(d@ =~= codebook_sizes(wf@));
        Ok(d)
    }

    /// A decoder with codebooks of these sizes.
    pub fn with_codebooks(cb_sizes: Vec<usize>) -> (r: Self)
        ensures
            r@ == cb_sizes@.map_values(|n: usize| n as int),
    {
        Decoder12Hz { cb_sizes }
    }

    /// Codes per frame (semantic first).
    pub fn groups(&self) -> (r: usize)
        ensures
            r == self@.len(),
    {
        self.cb_sizes.len()
    }

    fn bad_code(&self, frame: &Vec<u32>) -> (r: Option<usize>)
        requires
            frame.len() == self@.len(),
        ensures
            match r {
                Some(g) => first_bad_code(frame@, self@, 0) == Some(g as int) && g < frame.len(),
                None => first_bad_code(frame@, self@, 0) is None,
            },
    {
        let mut g: usize = 0;
        while g < frame.len()
            invariant
                g <= frame.len() == self.cb_sizes.len(),
                first_bad_code(frame@, self@, 0) == first_bad_code(frame@, self@, g as int),
            decreases frame.len() - g,
        {
            if frame[g] as usize >= self.cb_sizes[g] {
                return Some(g);
            }
            g = g + 1;
        }
        None
    }

    fn check_frame(&self, i: usize, frame: &Vec<u32>) -> (r: Result<(), TtsError>)
        ensures
            match r {
                Ok(_) => frame.len() == self@.len() && first_bad_code(frame@, self@, 0) is None,
                Err(e) => if frame.len() != self@.len() {
                    e@ == frame_length_error(i as int, frame.len() as int, self@.len() as int)
                } else {
                    first_bad_code(frame@, self@, 0) matches Some(g) && e@ == frame_code_error(
                        i as int,
                        g,
                        frame[g] as int,
                        self@[g],
                    )
                },
            },
    {
        if frame.len() != self.cb_sizes.len() {
            return Err(
                TtsError::InvalidFrames(
                    "frame ".to_string().concat(decimal(i as u64).as_str()).concat(" has ").concat(
                        decimal(frame.len() as u64).as_str(),
                    ).concat(" codes, expected ").concat(
                        decimal(self.cb_sizes.len() as u64).as_str(),
                    ),
                ),
            );
        }
        match self.bad_code(frame) {
            Some(g) => Err(
                TtsError::InvalidFrames(
                    "frame ".to_string().concat(decimal(i as u64).as_str()).concat(" code ").concat(
                        decimal(g as u64).as_str(),
                    ).concat(" is ").concat(decimal(frame[g] as u64).as_str()).concat(
                        ", codebook has ",
                    ).concat(decimal(self.cb_sizes[g] as u64).as_str()).concat(" entries"),
                ),
            ),
            None => Ok(()),
        }
    }

    /// Refuses frames that are no frames of this codec: the error is that of
    /// the first code that does not fit.
    pub fn validate_frames(&self, frames: &Vec<Vec<u32>>) -> (r: Result<(), TtsError>)
        ensures
            match r {
                Ok(_) => frames_error_from(codes_of(frames@), self@, 0) is None,
                Err(e) => frames_error_from(codes_of(frames@), self@, 0) == Some(e@),
            },
    {
        let mut i: usize = 0;
        while i < frames.len()
            invariant
                i <= frames.len(),
                frames_error_from(codes_of(frames@), self@, 0) == frames_error_from(
                    codes_of(frames@),
                    self@,
                    i as int,
                ),
            decreases frames.len() - i,
        {
            self.check_frame(i, &frames[i])?;
            i = i + 1;
        }
        Ok(())
    }

    /// Plans a decode of all frames; nothing where there are none.
    pub fn decode(&self, frames: &Vec<Vec<u32>>) -> (r: Result<Option<DecodePlan>, TtsError>)
        requires
            frames.len() <= usize::MAX / 2,
        ensures
            match r {
                Ok(p) => {
                    &&& frames_error_from(codes_of(frames@), self@, 0) is None
                    &&& p == plan_all(frames.len() as int)
                    &&& p matches Some(plan) ==> plan.wf()
                },
                Err(e) => frames_error_from(codes_of(frames@), self@, 0) == Some(e@),
            },
    {
        self.validate_frames(frames)?;
        let n: usize = frames.len();
        if n == 0 {
            return Ok(None);
        }
        let t: usize = bucket(n);
        Ok(
            Some(
                DecodePlan {
                    frames: t,
                    window_from: 0,
                    window_len: n,
                    window_frames: t,
                    context: 0,
                },
            ),
        )
    }

    /// Plans a decode of which only the samples from frame `keep_from` on are
    /// kept; nothing where there are none.
    pub fn decode_window(&self, frames: &Vec<Vec<u32>>, keep_from: usize) -> (r: Result<
        Option<DecodePlan>,
        TtsError,
    >)
        requires
            frames.len() <= usize::MAX / 2,
        ensures
            match r {
                Ok(p) => {
                    &&& frames_error_from(codes_of(frames@), self@, 0) is None
                    &&& p == plan_from(frames.len() as int, keep_from as int)
                    &&& p matches Some(plan) ==> plan.wf()
                },
                Err(e) => frames_error_from(codes_of(frames@), self@, 0) == Some(e@),
            },
    {
        self.validate_frames(frames)?;
        let n: usize = frames.len();
        if n == 0 || keep_from >= n {
            return Ok(None);
        }
        let from: usize = if keep_from < UPSAMPLE_CTX_FRAMES {
            0
        } else {
            keep_from - UPSAMPLE_CTX_FRAMES
        };
        let len: usize = n - from;
        Ok(
            Some(
                DecodePlan {
                    frames: bucket(n),
                    window_from: from,
                    window_len: len,
                    window_frames: bucket(len),
                    context: keep_from - from,
                },
            ),
        )
    }

    /// The codes of each group over a block of `t` frames: the frames, and the
    /// last one again as often as it takes.
    pub fn embed_frames(&self, frames: &Vec<Vec<u32>>, t: usize) -> (r: Vec<Vec<u32>>)
        requires
            0 < frames.len() <= t,
            frames_error_from(codes_of(frames@), self@, 0) is None,
        ensures
            codes_of(r@) == padded_groups(codes_of(frames@), self@.len(), t as nat),
    {
        proof {
            lemma_frames_fit(codes_of(frames@), self@, 0);
        }
        let groups: usize = self.cb_sizes.len();
        let n: usize = frames.len();
        let mut out: Vec<Vec<u32>> = Vec::new();
        let mut g: usize = 0;
        while g < groups
            invariant
                g <= groups == self@.len(),
                0 < n <= t,
                n == frames.len(),
                forall|i: int|
                    0 <= i < frames.len() ==> (#[trigger] codes_of(frames@)[i]).len() == groups,
                codes_of(out@) =~= padded_groups(codes_of(frames@), self@.len(), t as nat).take(
                    g as int,
                ),
            decreases groups - g,
        {
            let mut column: Vec<u32> = Vec::new();
            let mut i: usize = 0;
            while i < t
                invariant
                    g < groups,
                    i <= t,
                    0 < n <= t,
                    n == frames.len(),
                    forall|i: int|
                        0 <= i < frames.len() ==> (#[trigger] codes_of(frames@)[i]).len() == groups,
                    column@ =~= Seq::new(
                        i as nat,
                        |i: int| padded_frame(codes_of(frames@), i)[g as int],
                    ),
                decreases t - i,
            {
                let k: usize = if i < n {
                    i
                } else {
                    n - 1
                };
                assert(codes_of(frames@)[k as int].len() == groups);
                column.push(frames[k][g]);
                i = i + 1;
            }
            let ghost before: Seq<Vec<u32>> = out@;
            out.push(column);
            assert(codes_of(out@) =~= codes_of(before).push(column@));
            g = g + 1;
        }
        assert(codes_of(out@) =~= padded_groups(codes_of(frames@), self@.len(), t as nat));
        out
    }
}

proof fn lemma_frames_fit(frames: Seq<Seq<u32>>, sizes: Seq<int>, from: int)
    requires
        0 <= from,
        frames_error_from(frames, sizes, from) is None,
    ensures
        forall|i: int| from <= i < frames.len() ==> (#[trigger] frames[i]).len() == sizes.len(),
    decreases frames.len() - from,
{
    if from < frames.len() {
        lemma_frames_fit(frames, sizes, from + 1);
    }
}

/// Zeros that a convolution puts before its input, so that it sees no future
/// and keeps the length.
pub fn conv_padding(dilation: usize, kernel: usize) -> (r: usize)
    requires
        kernel >= 1,
        dilation * (kernel - 1) <= usize::MAX,
    ensures
        r == dilation * (kernel - 1),
{
    dilation * (kernel - 1)
}

/// Samples that a transposed convolution drops at the end.
pub fn tconv_trim(kernel: usize, stride: usize) -> (r: usize)
    requires
        kernel >= stride,
    ensures
        r == kernel - stride,
{
    kernel - stride
}

/// The length of a convolution with stride 1 over `t` samples.
pub open spec fn conv_len(t: int, kernel: int, dilation: int) -> int {
    t - dilation * (kernel - 1)
}

/// The length of a transposed convolution over `t` samples.
pub open spec fn tconv_len(t: int, kernel: int, stride: int) -> int {
    (t - 1) * stride + kernel
}

/// A padded convolution keeps the length of its input; a trimmed transposed
/// convolution multiplies it by its stride.
pub proof fn layers_keep_time(t: int, kernel: int, dilation: int, stride: int)
    requires
        t >= 1,
        kernel >= 1,
        kernel >= stride >= 1,
        dilation >= 1,
    ensures
        conv_len(t + dilation * (kernel - 1), kernel, dilation) == t,
        tconv_len(t, kernel, stride) - (kernel - stride) == t * stride,
{
    assert((t - 1) * stride == t * stride - stride) by (nonlinear_arith);
}

/// The upsampling stages multiply the number of frames by 1920.
pub proof fn frames_upsample_to_80_ms(t: int)
    requires
        t >= 1,
    ensures
        t * 2 * 2 * 8 * 5 * 4 * 3 == t * SAMPLES_PER_FRAME,
        SAMPLES_PER_FRAME * 1000 == 80 * crate::error::SAMPLE_RATE,
{
}

/// Where every upsampled frame gives `per_frame` samples, what is kept of a
/// decode is `per_frame` samples for each frame from `keep_from` on; counted
/// from the start of the utterance they are the same samples that a decode of
/// everything would give for those frames.
pub proof fn windows_give_whole_frames(n: int, keep_from: int, per_frame: int)
    requires
        0 <= keep_from < n <= usize::MAX / 2,
        per_frame >= 1,
    ensures
        ({
            let p = tail_plan(n, keep_from);
            let samples = p.window_frames * per_frame;
            &&& p.wf()
            &&& p.per_frame(samples) == per_frame
            &&& p.window_len * per_frame - p.context * per_frame == (n - keep_from) * per_frame
            &&& p.window_from * per_frame + p.context * per_frame == keep_from * per_frame
            &&& p.window_from * per_frame + p.window_len * per_frame == n * per_frame
        }),
        ({
            let p = whole_plan(n);
            &&& p.wf()
            &&& p.per_frame(p.window_frames * per_frame) == per_frame
            &&& p.window_len == n
            &&& p.context == 0
        }),
{
    let p = tail_plan(n, keep_from);
    let from = window_start(keep_from);
    lemma_bucket(n, MIN_BUCKET as int);
    lemma_bucket(n - from, MIN_BUCKET as int);
    vstd::arithmetic::div_mod::lemma_div_multiples_vanish(per_frame, p.window_frames as int);
    vstd::arithmetic::div_mod::lemma_div_multiples_vanish(per_frame, p.frames as int);
    assert(p.window_frames * per_frame == per_frame * p.window_frames) by (nonlinear_arith);
    assert(p.frames * per_frame == per_frame * p.frames) by (nonlinear_arith);
    assert(p.window_len * per_frame - p.context * per_frame == (n - keep_from) * per_frame && p
        .window_from * per_frame + p.context * per_frame == keep_from * per_frame && p.window_from
        * per_frame + p.window_len * per_frame == n * per_frame) by (nonlinear_arith)
        requires
            p.window_len - p.context == n - keep_from,
            p.window_from + p.context == keep_from,
            p.window_from + p.window_len == n,
    ;
}

/// What a decoder computes, up to its numbers. Everything before the upsampling
/// is causal: the latent of a frame is a function of the frames up to it. The
/// upsampling is a series of stages. Stage `i` makes `shapes[i].0` positions of
/// each position of its input, and each of them is a function of that position
/// and of at most `shapes[i].1` before it.
pub struct Model {
    pub latent: spec_fn(Seq<Seq<u32>>) -> Seq<Single>,
    pub shapes: Seq<(int, int)>,
    /// The stage, the positions it sees, and which position is asked for.
    pub layer: spec_fn(int, Seq<Seq<Single>>, int) -> Seq<Single>,
}

/// The first position that is seen from `p` where one looks back `back`.
pub open spec fn seen_from(p: int, back: int) -> int {
    if p < back {
        0
    } else {
        p - back
    }
}

impl Model {
    /// What stage `i` makes of its input.
    pub open spec fn stage(self, i: int, xs: Seq<Seq<Single>>) -> Seq<Seq<Single>> {
        let (rate, back) = self.shapes[i];
        Seq::new(
            (xs.len() * rate) as nat,
            |j: int|
                (self.layer)(
                    i,
                    xs.subrange(seen_from(j / rate, back), j / rate + 1),
                    j % rate,
                ),
        )
    }

    /// What the first `n` stages make of some latents.
    pub open spec fn stages(self, n: nat, xs: Seq<Seq<Single>>) -> Seq<Seq<Single>>
        decreases n,
    {
        if n == 0 {
            xs
        } else {
            self.stage(n - 1, self.stages((n - 1) as nat, xs))
        }
    }

    /// The samples that a window of latents is upsampled to: the only channel of
    /// the last stage.
    pub open spec fn upsampled(self, window: Seq<Seq<Single>>) -> Seq<Single> {
        self.stages(self.shapes.len(), window).map_values(|channels: Seq<Single>| channels[0])
    }

    /// The latents of a plan's window: those of the frames, then whatever the
    /// window is padded with.
    pub open spec fn is_window(
        self,
        p: DecodePlan,
        frames: Seq<Seq<u32>>,
        window: Seq<Seq<Single>>,
    ) -> bool {
        &&& window.len() == p.window_frames
        &&& forall|i: int|
            0 <= i < p.window_len ==> #[trigger] window[i] == (self.latent)(
                frames.take(p.window_from + i + 1),
            )
    }

    /// The upsampling of a weight file that the context covers.
    pub open spec fn covered(self, tensors: Tensors) -> bool {
        &&& self.shapes == upsampling_shapes(tensors)
        &&& reach_of(self.shapes, self.shapes.len()) <= UPSAMPLE_CTX_FRAMES * SAMPLES_PER_FRAME
    }
}

/// How many positions the first `n` stages make of one.
pub open spec fn rate_of(shapes: Seq<(int, int)>, n: nat) -> int
    decreases n,
{
    if n == 0 {
        1
    } else {
        rate_of(shapes, (n - 1) as nat) * shapes[n - 1].0
    }
}

/// How many positions behind the first `n` stages what is before their input
/// has an influence on.
pub open spec fn reach_of(shapes: Seq<(int, int)>, n: nat) -> int
    decreases n,
{
    if n == 0 {
        0
    } else {
        (reach_of(shapes, (n - 1) as nat) + shapes[n - 1].1) * shapes[n - 1].0
    }
}

/// Stages of the upsampling: two of a transposed convolution and a ConvNeXt
/// block, a convolution, four blocks of a transposed convolution and three
/// residual units, a convolution.
pub const STAGES: usize = 22;

/// The length of a convolution's kernel.
pub open spec fn kernel_of(tensors: Tensors, p: Seq<char>) -> int {
    extent_in(tensors, p + ".weight"@, 2)
}

/// How far back a convolution looks.
pub open spec fn conv_back(kernel: int, dilation: int) -> int {
    if kernel < 1 {
        0
    } else {
        dilation * (kernel - 1)
    }
}

/// How far back a transposed convolution looks.
pub open spec fn tconv_back(kernel: int, stride: int) -> int {
    if kernel < 1 {
        0
    } else {
        (kernel - 1) / stride
    }
}

/// The rate of a stage.
pub open spec fn stage_rate(i: int) -> int {
    if i == 0 || i == 2 {
        2
    } else if i == 5 {
        8
    } else if i == 9 {
        5
    } else if i == 13 {
        4
    } else if i == 17 {
        3
    } else {
        1
    }
}

/// The prefix of an upsampling block, from the first on.
pub open spec fn block_name(b: int) -> Seq<char> {
    if b == 0 {
        "decoder.decoder.1"@
    } else if b == 1 {
        "decoder.decoder.2"@
    } else if b == 2 {
        "decoder.decoder.3"@
    } else {
        "decoder.decoder.4"@
    }
}

/// How far back a stage of an upsampling block looks: the transposed
/// convolution, or one of the residual units with their dilations of 1, 3 and 9.
pub open spec fn block_back(tensors: Tensors, p: Seq<char>, slot: int, rate: int) -> int {
    let (unit, dilation) = if slot == 1 {
        (p + ".block.2"@, 1int)
    } else if slot == 2 {
        (p + ".block.3"@, 3int)
    } else {
        (p + ".block.4"@, 9int)
    };
    if slot == 0 {
        tconv_back(kernel_of(tensors, p + ".block.1.conv"@), rate)
    } else {
        conv_back(kernel_of(tensors, unit + ".conv1.conv"@), dilation) + conv_back(
            kernel_of(tensors, unit + ".conv2.conv"@),
            1,
        )
    }
}

/// How far back a stage looks.
pub open spec fn stage_back(tensors: Tensors, i: int) -> int {
    if i == 0 {
        tconv_back(kernel_of(tensors, "decoder.upsample.0.0.conv"@), 2)
    } else if i == 1 {
        conv_back(kernel_of(tensors, "decoder.upsample.0.1.dwconv.conv"@), 1)
    } else if i == 2 {
        tconv_back(kernel_of(tensors, "decoder.upsample.1.0.conv"@), 2)
    } else if i == 3 {
        conv_back(kernel_of(tensors, "decoder.upsample.1.1.dwconv.conv"@), 1)
    } else if i == 4 {
        conv_back(kernel_of(tensors, "decoder.decoder.0.conv"@), 1)
    } else if i < 21 {
        let b = (i - 5) / 4;
        block_back(tensors, block_name(b), (i - 5) % 4, stage_rate(5 + 4 * b))
    } else {
        conv_back(kernel_of(tensors, "decoder.decoder.6.conv"@), 1)
    }
}

/// The stages that a weight file's kernels make up.
pub open spec fn upsampling_shapes(tensors: Tensors) -> Seq<(int, int)> {
    Seq::new(STAGES as nat, |i: int| (stage_rate(i), stage_back(tensors, i)))
}

/// The upsampling makes 1920 samples of a frame, whatever its kernels.
pub proof fn stages_upsample_to_80_ms(tensors: Tensors)
    ensures
        rate_of(upsampling_shapes(tensors), STAGES as nat) == SAMPLES_PER_FRAME,
{
    assert(rate_of(upsampling_shapes(tensors), 0) == 1);
    lemma_rate(tensors, 0, 1);
    lemma_idle(tensors, 1, 2);
    lemma_rate(tensors, 2, 2);
    lemma_idle(tensors, 3, 5);
    lemma_rate(tensors, 5, 4);
    lemma_idle(tensors, 6, 9);
    lemma_rate(tensors, 9, 32);
    lemma_idle(tensors, 10, 13);
    lemma_rate(tensors, 13, 160);
    lemma_idle(tensors, 14, 17);
    lemma_rate(tensors, 17, 640);
    lemma_idle(tensors, 18, 22);
}

proof fn lemma_rate(tensors: Tensors, n: nat, before: int)
    requires
        n < STAGES,
        rate_of(upsampling_shapes(tensors), n) == before,
    ensures
        rate_of(upsampling_shapes(tensors), n + 1) == before * stage_rate(n as int),
{
}

proof fn lemma_idle(tensors: Tensors, from: nat, to: nat)
    requires
        from <= to <= STAGES,
        forall|i: int| from <= i < to ==> #[trigger] stage_rate(i) == 1,
    ensures
        rate_of(upsampling_shapes(tensors), to) == rate_of(upsampling_shapes(tensors), from),
    decreases to - from,
{
    if from < to {
        let before = rate_of(upsampling_shapes(tensors), (to - 1) as nat);
        lemma_idle(tensors, from, (to - 1) as nat);
        lemma_rate(tensors, (to - 1) as nat, before);
        assert(stage_rate(to - 1) == 1);
        assert(before * 1 == before);
    }
}

/// A decode of the first `m` frames that keeps samples from frame `keep_from`
/// on gives those that a decode of all frames gives for the same frames: 1920
/// for each, in range. So frames that come later change nothing, and a windowed
/// decode ends like the whole one. Where there is nothing to keep it gives none.
///
/// That takes an upsampling that looks back no further than the context of 40
/// frames. With kernels of 7, and of twice the stride where they are
/// transposed, it looks back less than 11. `whole` and `window` are the windows
/// of latents of the two decodes.
pub proof fn windows_end_like_the_whole(
    model: Model,
    tensors: Tensors,
    frames: Seq<Seq<u32>>,
    m: int,
    keep_from: int,
    whole: Seq<Seq<Single>>,
    window: Seq<Seq<Single>>,
)
    requires
        model.covered(tensors),
        frames.len() <= usize::MAX / 2,
        0 <= m <= frames.len(),
        0 <= keep_from,
        plan_all(frames.len() as int) matches Some(p) ==> model.is_window(p, frames, whole),
        plan_from(m, keep_from) matches Some(p) ==> model.is_window(p, frames.take(m), window),
    ensures
        ({
            let k = if keep_from < m {
                keep_from
            } else {
                m
            };
            let all = kept_samples(plan_all(frames.len() as int), model.upsampled(whole));
            let part = kept_samples(plan_from(m, keep_from), model.upsampled(window));
            &&& all.len() == frames.len() * SAMPLES_PER_FRAME
            &&& part == all.subrange(k * SAMPLES_PER_FRAME, m * SAMPLES_PER_FRAME)
            &&& part.len() == (m - k) * SAMPLES_PER_FRAME
            &&& forall|i: int| 0 <= i < part.len() ==> in_range(#[trigger] part[i])
            &&& forall|i: int| 0 <= i < all.len() ==> in_range(#[trigger] all[i])
        }),
{
    let per_frame = SAMPLES_PER_FRAME as int;
    let n = frames.len() as int;
    let up = model.upsampled(whole);
    let part_up = model.upsampled(window);
    let all = kept_samples(plan_all(n), up);
    let part = kept_samples(plan_from(m, keep_from), part_up);
    stages_upsample_to_80_ms(tensors);
    lemma_shapes(tensors);
    if n > 0 {
        windows_give_whole_frames(n, 0, per_frame);
        lemma_stages_len(model, STAGES as nat, whole);
        if keep_from < m {
            let p = tail_plan(m, keep_from);
            windows_give_whole_frames(m, keep_from, per_frame);
            lemma_stages_len(model, STAGES as nat, window);
            assert forall|i: int| 0 <= i < p.window_len implies #[trigger] window[i]
                == whole[p.window_from + i] by {
                assert(frames.take(m).take(p.window_from + i + 1) =~= frames.take(
                    p.window_from + i + 1,
                ));
                assert(whole[p.window_from + i] == (model.latent)(
                    frames.take(0 + (p.window_from + i) + 1),
                ));
            }
            lemma_stages_agree(
                model,
                STAGES as nat,
                whole,
                window,
                p.window_from as int,
                p.window_len as int,
            );
            assert(part =~= all.subrange(keep_from * per_frame, m * per_frame));
        } else {
            assert(part =~= all.subrange(m * per_frame, m * per_frame));
        }
    } else {
        assert(part =~= all.subrange(0, 0));
    }
}

proof fn lemma_shapes(tensors: Tensors)
    ensures
        forall|i: int|
            0 <= i < STAGES ==> (#[trigger] upsampling_shapes(tensors)[i]).0 >= 1
                && upsampling_shapes(tensors)[i].1 >= 0,
{
    assert forall|i: int| 0 <= i < STAGES implies (#[trigger] upsampling_shapes(tensors)[i]).0 >= 1
        && upsampling_shapes(tensors)[i].1 >= 0 by {
        lemma_back(tensors, i);
    }
}

proof fn lemma_back(tensors: Tensors, i: int)
    requires
        0 <= i < STAGES,
    ensures
        stage_back(tensors, i) >= 0,
{
    assert forall|kernel: int, stride: int| stride >= 1 implies #[trigger] tconv_back(kernel, stride)
        >= 0 by {
        if kernel >= 1 {
            vstd::arithmetic::div_mod::lemma_div_pos_is_pos(kernel - 1, stride);
        }
    }
    assert forall|kernel: int, dilation: int| dilation >= 0 implies #[trigger] conv_back(
        kernel,
        dilation,
    ) >= 0 by {
        if kernel >= 1 {
            assert(dilation * (kernel - 1) >= 0) by (nonlinear_arith)
                requires
                    dilation >= 0,
                    kernel >= 1,
            ;
        }
    }
}

proof fn lemma_stages_len(model: Model, n: nat, xs: Seq<Seq<Single>>)
    requires
        n <= model.shapes.len(),
        forall|i: int| 0 <= i < model.shapes.len() ==> (#[trigger] model.shapes[i]).0 >= 1,
    ensures
        model.stages(n, xs).len() == xs.len() * rate_of(model.shapes, n),
        rate_of(model.shapes, n) >= 1,
    decreases n,
{
    if n > 0 {
        lemma_stages_len(model, (n - 1) as nat, xs);
        let r = rate_of(model.shapes, (n - 1) as nat);
        let rate = model.shapes[n - 1].0;
        assert(xs.len() * r * rate == xs.len() * (r * rate) && r * rate >= 1 && xs.len() * r >= 0
            && xs.len() * r * rate >= 0) by (nonlinear_arith)
            requires
                r >= 1,
                rate >= 1,
                xs.len() >= 0,
        ;
    }
}

/// Where a window holds what stands at `from` in the whole, so does what the
/// stages make of it, behind what the beginning of the window can have an
/// influence on.
proof fn lemma_stages_agree(
    model: Model,
    n: nat,
    xs: Seq<Seq<Single>>,
    ys: Seq<Seq<Single>>,
    from: int,
    len: int,
)
    requires
        n <= model.shapes.len(),
        forall|i: int|
            0 <= i < model.shapes.len() ==> (#[trigger] model.shapes[i]).0 >= 1
                && model.shapes[i].1 >= 0,
        0 <= from,
        0 <= len,
        from + len <= xs.len(),
        len <= ys.len(),
        forall|i: int| 0 <= i < len ==> #[trigger] ys[i] == xs[from + i],
    ensures
        reach_of(model.shapes, n) >= 0,
        ({
            let rate = rate_of(model.shapes, n);
            let reach = if from == 0 {
                0
            } else {
                reach_of(model.shapes, n)
            };
            forall|j: int|
                reach <= j < len * rate ==> #[trigger] model.stages(n, ys)[j] == model.stages(n, xs)[
                from * rate + j]
        }),
    decreases n,
{
    if n > 0 {
        let m = (n - 1) as nat;
        lemma_stages_agree(model, m, xs, ys, from, len);
        lemma_stages_len(model, m, xs);
        lemma_stages_len(model, m, ys);
        let r = rate_of(model.shapes, m);
        let (rate, back) = model.shapes[n - 1];
        let reach = if from == 0 {
            0
        } else {
            reach_of(model.shapes, m)
        };
        assert(0 <= from * r && 0 <= len * r && from * r + len * r <= xs.len() * r && len * r
            <= ys.len() * r && from * (r * rate) == from * r * rate && len * (r * rate) == len * r
            * rate && (from == 0 <==> from * r == 0)) by (nonlinear_arith)
            requires
                r >= 1,
                rate >= 1,
                0 <= from,
                0 <= len,
                from + len <= xs.len(),
                len <= ys.len(),
        ;
        lemma_stage_agrees(
            model,
            n - 1,
            model.stages(m, xs),
            model.stages(m, ys),
            from * r,
            reach,
            len * r,
        );
        assert((reach_of(model.shapes, m) + back) * rate >= 0) by (nonlinear_arith)
            requires
                reach_of(model.shapes, m) >= 0,
                back >= 0,
                rate >= 1,
        ;
    }
}

proof fn lemma_stage_agrees(
    model: Model,
    i: int,
    xs: Seq<Seq<Single>>,
    ys: Seq<Seq<Single>>,
    from: int,
    reach: int,
    len: int,
)
    requires
        0 <= i < model.shapes.len(),
        model.shapes[i].0 >= 1,
        model.shapes[i].1 >= 0,
        0 <= from,
        0 <= reach,
        from == 0 ==> reach == 0,
        0 <= len,
        from + len <= xs.len(),
        len <= ys.len(),
        forall|j: int| reach <= j < len ==> #[trigger] ys[j] == xs[from + j],
    ensures
        ({
            let (rate, back) = model.shapes[i];
            let behind = if from == 0 {
                0
            } else {
                (reach + back) * rate
            };
            forall|j: int|
                behind <= j < len * rate ==> #[trigger] model.stage(i, ys)[j] == model.stage(i, xs)[
                from * rate + j]
        }),
{
    let (rate, back) = model.shapes[i];
    let behind = if from == 0 {
        0
    } else {
        (reach + back) * rate
    };
    assert(behind >= 0) by (nonlinear_arith)
        requires
            behind == 0 || behind == (reach + back) * rate,
            reach >= 0,
            back >= 0,
            rate >= 1,
    ;
    assert forall|j: int| behind <= j < len * rate implies #[trigger] model.stage(i, ys)[j]
        == model.stage(i, xs)[from * rate + j] by {
        let p = j / rate;
        let q = (from * rate + j) / rate;
        assert(0 <= p < len && q == from + p && (from * rate + j) % rate == j % rate)
            by (nonlinear_arith)
            requires
                p == j / rate,
                q == (from * rate + j) / rate,
                0 <= j < len * rate,
                rate >= 1,
        ;
        assert(j < ys.len() * rate && 0 <= from * rate && from * rate + j < xs.len() * rate)
            by (nonlinear_arith)
            requires
                j < len * rate,
                len <= ys.len(),
                from + len <= xs.len(),
                0 <= from,
                rate >= 1,
        ;
        if from != 0 {
            assert(p >= reach + back) by (nonlinear_arith)
                requires
                    p == j / rate,
                    j >= (reach + back) * rate,
                    rate >= 1,
            ;
        }
        let near = ys.subrange(seen_from(p, back), p + 1);
        let far = xs.subrange(seen_from(q, back), q + 1);
        assert forall|k: int| 0 <= k < near.len() implies near[k] == far[k] by {
            assert(ys[seen_from(p, back) + k] == xs[from + (seen_from(p, back) + k)]);
        }
        assert(near =~= far);
    }
}

proof fn lemma_bucket(n: int, t: int)
    requires
        0 < t,
        n <= usize::MAX / 2,
        t <= MIN_BUCKET || t < 2 * n,
    ensures
        n <= bucket_from(n, t),
        t <= bucket_from(n, t),
        bucket_from(n, t) <= MIN_BUCKET || bucket_from(n, t) < 2 * n,
    decreases
            if t < n {
                n - t
            } else {
                0
            },
{
    if t < n {
        lemma_bucket(n, 2 * t);
    }
}

/// Whether a frame has a code for each codebook and each code has an entry.
pub open spec fn frame_fits(frame: Seq<u32>, sizes: Seq<int>) -> bool {
    &&& frame.len() == sizes.len()
    &&& forall|g: int| 0 <= g < frame.len() ==> #[trigger] frame[g] < sizes[g]
}

/// Frames are refused exactly where one does not fit. The first such frame is
/// told: the number of its codes where that is wrong, otherwise the first of its
/// codes that has no entry.
pub proof fn the_first_frame_that_does_not_fit_is_told(
    frames: Seq<Seq<u32>>,
    sizes: Seq<int>,
    i: int,
    g: int,
)
    requires
        0 <= i < frames.len(),
    ensures
        (forall|k: int| 0 <= k < frames.len() ==> #[trigger] frame_fits(frames[k], sizes))
            <==> frames_error_from(frames, sizes, 0) is None,
        (forall|k: int| 0 <= k < i ==> #[trigger] frame_fits(frames[k], sizes)) ==> {
            &&& frames[i].len() != sizes.len() ==> frames_error_from(frames, sizes, 0) == Some(
                ErrorView::InvalidFrames(
                    "frame "@ + digits(i as nat) + " has "@ + digits(frames[i].len())
                        + " codes, expected "@ + digits(sizes.len()),
                ),
            )
            &&& frames[i].len() == sizes.len() && 0 <= g < frames[i].len() && frames[i][g]
                >= sizes[g] && (forall|k: int|
                0 <= k < g ==> #[trigger] frames[i][k] < sizes[k]) ==> frames_error_from(
                frames,
                sizes,
                0,
            ) == Some(
                ErrorView::InvalidFrames(
                    "frame "@ + digits(i as nat) + " code "@ + digits(g as nat) + " is "@ + digits(
                        frames[i][g] as nat,
                    ) + ", codebook has "@ + digits(sizes[g] as nat) + " entries"@,
                ),
            )
        },
{
    if forall|k: int| 0 <= k < frames.len() ==> #[trigger] frame_fits(frames[k], sizes) {
        lemma_fitting_skipped(frames, sizes, 0, frames.len() as int);
    }
    if frames_error_from(frames, sizes, 0) is None {
        lemma_all_fit(frames, sizes, 0);
    }
    if forall|k: int| 0 <= k < i ==> #[trigger] frame_fits(frames[k], sizes) {
        lemma_fitting_skipped(frames, sizes, 0, i);
        if frames[i].len() == sizes.len() && 0 <= g < frames[i].len() && frames[i][g] >= sizes[g]
            && (forall|k: int| 0 <= k < g ==> #[trigger] frames[i][k] < sizes[k]) {
            lemma_codes_skipped(frames[i], sizes, 0, g);
        }
    }
}

proof fn lemma_codes_skipped(frame: Seq<u32>, sizes: Seq<int>, from: int, to: int)
    requires
        0 <= from <= to <= frame.len(),
        forall|g: int| from <= g < to ==> #[trigger] frame[g] < sizes[g],
    ensures
        first_bad_code(frame, sizes, from) == first_bad_code(frame, sizes, to),
    decreases to - from,
{
    if from < to {
        lemma_codes_skipped(frame, sizes, from + 1, to);
    }
}

proof fn lemma_codes_fit(frame: Seq<u32>, sizes: Seq<int>, from: int)
    requires
        0 <= from,
        first_bad_code(frame, sizes, from) is None,
    ensures
        forall|g: int| from <= g < frame.len() ==> #[trigger] frame[g] < sizes[g],
    decreases frame.len() - from,
{
    if from < frame.len() {
        lemma_codes_fit(frame, sizes, from + 1);
    }
}

proof fn lemma_fitting_skipped(frames: Seq<Seq<u32>>, sizes: Seq<int>, from: int, to: int)
    requires
        0 <= from <= to <= frames.len(),
        forall|k: int| from <= k < to ==> #[trigger] frame_fits(frames[k], sizes),
    ensures
        frames_error_from(frames, sizes, from) == frames_error_from(frames, sizes, to),
    decreases to - from,
{
    if from < to {
        assert(frame_fits(frames[from], sizes));
        lemma_codes_skipped(frames[from], sizes, 0, frames[from].len() as int);
        lemma_fitting_skipped(frames, sizes, from + 1, to);
    }
}

proof fn lemma_all_fit(frames: Seq<Seq<u32>>, sizes: Seq<int>, from: int)
    requires
        0 <= from,
        frames_error_from(frames, sizes, from) is None,
    ensures
        forall|k: int| from <= k < frames.len() ==> #[trigger] frame_fits(frames[k], sizes),
    decreases frames.len() - from,
{
    if from < frames.len() {
        lemma_codes_fit(frames[from], sizes, 0);
        lemma_all_fit(frames, sizes, from + 1);
    }
}

/// As many frames are computed as the next power of two from 32 on holds: no
/// fewer than there are, and with half as many there would be too few.
pub proof fn buckets_are_powers_of_two(n: int)
    requires
        0 <= n,
    ensures
        bucket_of(n) >= n,
        bucket_of(n) >= 32,
        bucket_of(n) > 32 ==> bucket_of(n) < 2 * n,
        exists|k: nat| bucket_of(n) == 32 * #[trigger] vstd::arithmetic::power2::pow2(k),
{
    vstd::arithmetic::power2::lemma2_to64();
    lemma_doubling(n, 32, 0);
}

proof fn lemma_doubling(n: int, t: int, k: nat)
    requires
        t == 32 * vstd::arithmetic::power2::pow2(k),
        t > 0,
        t == 32 || t < 2 * n,
    ensures
        bucket_from(n, t) >= n,
        bucket_from(n, t) >= t,
        bucket_from(n, t) == 32 || bucket_from(n, t) < 2 * n,
        exists|k: nat| bucket_from(n, t) == 32 * #[trigger] vstd::arithmetic::power2::pow2(k),
    decreases
            if t < n {
                n - t
            } else {
                0
            },
{
    if t < n {
        vstd::arithmetic::power2::lemma2_to64();
        vstd::arithmetic::power2::lemma_pow2_adds(k, 1);
        lemma_doubling(n, 2 * t, k + 1);
    }
}

/// A decode of which samples are kept from a frame on upsamples 40 frames of
/// context before it, or all there are, and everything behind; the transformer
/// runs over all frames either way. Nothing is planned where nothing is kept.
pub proof fn windows_hold_40_frames_of_context(n: int, keep_from: int)
    requires
        0 <= keep_from,
        0 <= n <= usize::MAX / 2,
    ensures
        plan_from(n, keep_from) is None <==> keep_from >= n,
        plan_from(n, keep_from) matches Some(p) ==> {
            &&& p.frames == bucket_of(n)
            &&& p.window_from + p.context == keep_from
            &&& p.window_from + p.window_len == n
            &&& p.context <= 40
            &&& p.context == 40 || p.window_from == 0
            &&& p.window_frames == bucket_of(p.window_len as int)
        },
        plan_all(n) is None <==> n == 0,
        plan_all(n) matches Some(p) ==> {
            &&& p.frames == bucket_of(n)
            &&& p.window_from == 0
            &&& p.window_len == n
            &&& p.window_frames == p.frames
            &&& p.context == 0
        },
{
    lemma_bucket(n, MIN_BUCKET as int);
    if keep_from < n {
        lemma_bucket(n - window_start(keep_from), MIN_BUCKET as int);
    }
}

/// A sample is brought to the nearest of -1 and 1 where it is beyond them and is
/// left alone otherwise, as is what is not a number; what is kept of the
/// upsampled samples starts behind the context and ends with the last frame that
/// is no padding.
pub proof fn samples_are_brought_into_range(v: Single, p: DecodePlan, up: Seq<Single>, i: int)
    requires
        p.wf(),
    ensures
        ({
            let (low, high) = (Single { bits: 0xbf80_0000 }, Single { bits: 0x3f80_0000 });
            &&& v.less(low) ==> clamped(v) == low
            &&& high.less(v) ==> clamped(v) == high
            &&& !v.less(low) && !high.less(v) ==> clamped(v) == v
            &&& in_range(v) <==> clamped(v) == v
            &&& in_range(clamped(v))
        }),
        ({
            let each = up.len() as int / p.window_frames as int;
            let kept = kept_samples(Some(p), up);
            &&& kept.len() == (p.window_len - p.context) * each
            &&& 0 <= i < kept.len() ==> kept[i] == clamped(up[p.context * each + i])
        }),
        kept_samples(None, up).len() == 0,
{
    let each = up.len() as int / p.window_frames as int;
    assert(0 <= p.context * each <= p.window_len * each <= up.len() && p.window_len * each
        - p.context * each == (p.window_len - p.context) * each) by (nonlinear_arith)
        requires
            p.context < p.window_len <= p.window_frames,
            p.window_frames > 0,
            each == up.len() as int / p.window_frames as int,
    ;
}

/// A block is padded with its last frame: group `g` holds code `g` of each frame
/// and then that of the last one.
pub proof fn blocks_are_padded_with_the_last_frame(
    frames: Seq<Seq<u32>>,
    groups: nat,
    t: nat,
    g: int,
    i: int,
)
    requires
        0 < frames.len() <= t,
        0 <= g < groups,
        0 <= i < t,
    ensures
        padded_groups(frames, groups, t).len() == groups,
        padded_groups(frames, groups, t)[g].len() == t,
        i < frames.len() ==> padded_groups(frames, groups, t)[g][i] == frames[i][g],
        i >= frames.len() ==> padded_groups(frames, groups, t)[g][i] == frames[frames.len()
            - 1][g],
{
}

/// There are sixteen codebooks: the semantic one and fifteen others, each with as
/// many entries as its table of sums has rows.
pub proof fn codebooks_are_sized_by_their_sums(tensors: Tensors, g: int)
    requires
        0 <= g < 16,
    ensures
        codebook_sizes(tensors).len() == 16,
        g == 0 ==> codebook_sizes(tensors)[g] == extent_in(
            tensors,
            "decoder.quantizer.rvq_first.vq.layers.0._codebook"@ + ".embedding_sum"@,
            0,
        ),
        g > 0 ==> codebook_sizes(tensors)[g] == extent_in(
            tensors,
            "decoder.quantizer.rvq_rest.vq.layers."@ + digits((g - 1) as nat) + "._codebook"@
                + ".embedding_sum"@,
            0,
        ),
{
}

/// A convolution that can be loaded, with or without a bias.
pub open spec fn has_conv(tensors: Tensors, p: Seq<char>) -> bool {
    &&& loadable(tensors, p + ".weight"@, 3)
    &&& tensors.contains_key(p + ".bias"@) ==> loadable(tensors, p + ".bias"@, 1)
}

/// A transposed convolution that can be loaded and whose kernel is no shorter
/// than its stride.
pub open spec fn has_tconv(tensors: Tensors, p: Seq<char>, stride: int) -> bool {
    &&& loadable(tensors, p + ".weight"@, 3)
    &&& tensors[p + ".weight"@].shape[2] >= stride
    &&& loadable(tensors, p + ".bias"@, 1)
}

/// An activation that can be loaded, with as many values for the one parameter
/// as for the other.
pub open spec fn has_snake(tensors: Tensors, p: Seq<char>) -> bool {
    &&& loadable(tensors, p + ".alpha"@, 1)
    &&& loadable(tensors, p + ".beta"@, 1)
    &&& tensors[p + ".alpha"@].shape[0] == tensors[p + ".beta"@].shape[0]
}

/// A residual unit that can be loaded.
pub open spec fn has_unit(tensors: Tensors, p: Seq<char>) -> bool {
    &&& has_snake(tensors, p + ".act1"@)
    &&& has_conv(tensors, p + ".conv1.conv"@)
    &&& has_snake(tensors, p + ".act2"@)
    &&& has_conv(tensors, p + ".conv2.conv"@)
}

/// An upsampling block that can be loaded.
pub open spec fn has_block(tensors: Tensors, p: Seq<char>, rate: int) -> bool {
    &&& has_snake(tensors, p + ".block.0"@)
    &&& has_tconv(tensors, p + ".block.1.conv"@, rate)
    &&& has_unit(tensors, p + ".block.2"@)
    &&& has_unit(tensors, p + ".block.3"@)
    &&& has_unit(tensors, p + ".block.4"@)
}

/// A ConvNeXt block that can be loaded.
pub open spec fn has_next(tensors: Tensors, p: Seq<char>) -> bool {
    &&& has_conv(tensors, p + ".dwconv.conv"@)
    &&& loadable(tensors, p + ".norm.weight"@, 1)
    &&& loadable(tensors, p + ".norm.bias"@, 1)
    &&& loadable(tensors, p + ".pwconv1.weight"@, 2)
    &&& loadable(tensors, p + ".pwconv1.bias"@, 1)
    &&& loadable(tensors, p + ".pwconv2.weight"@, 2)
    &&& loadable(tensors, p + ".pwconv2.bias"@, 1)
    &&& loadable(tensors, p + ".gamma"@, 1)
}

/// A transformer layer that can be loaded, with projections to sixteen heads of
/// 64.
pub open spec fn has_pre_layer(tensors: Tensors, p: Seq<char>) -> bool {
    &&& loadable(tensors, p + ".self_attn.q_proj.weight"@, 2)
    &&& tensors[p + ".self_attn.q_proj.weight"@].shape[0] == 1024
    &&& loadable(tensors, p + ".self_attn.k_proj.weight"@, 2)
    &&& tensors[p + ".self_attn.k_proj.weight"@].shape[0] == 1024
    &&& loadable(tensors, p + ".self_attn.v_proj.weight"@, 2)
    &&& tensors[p + ".self_attn.v_proj.weight"@].shape[0] == 1024
    &&& loadable(tensors, p + ".input_layernorm.weight"@, 1)
    &&& loadable(tensors, p + ".self_attn.o_proj.weight"@, 2)
    &&& loadable(tensors, p + ".self_attn_layer_scale.scale"@, 1)
    &&& loadable(tensors, p + ".post_attention_layernorm.weight"@, 1)
    &&& loadable(tensors, p + ".mlp.gate_proj.weight"@, 2)
    &&& loadable(tensors, p + ".mlp.up_proj.weight"@, 2)
    &&& loadable(tensors, p + ".mlp.down_proj.weight"@, 2)
    &&& loadable(tensors, p + ".mlp_layer_scale.scale"@, 1)
}

/// A codebook that can be loaded, with a usage count for each entry.
pub open spec fn has_codebook(tensors: Tensors, p: Seq<char>) -> bool {
    &&& loadable(tensors, p + ".embedding_sum"@, 2)
    &&& loadable(tensors, p + ".cluster_usage"@, 1)
    &&& tensors[p + ".cluster_usage"@].shape[0] == tensors[p + ".embedding_sum"@].shape[0]
}

proof fn lemma_conv(tensors: Tensors, p: Seq<char>)
    ensures
        first_error(tensors, conv_steps(p)) is None <==> has_conv(tensors, p),
{
    let s = conv_steps(p);
    crate::schema::passing_is_passing_each(tensors, s);
    if first_error(tensors, s) is None {
        assert(crate::schema::step_error(tensors, s[0]) is None);
        assert(crate::schema::step_error(tensors, s[1]) is None);
    }
    if has_conv(tensors, p) {
        assert forall|i: int| 0 <= i < s.len() implies crate::schema::step_error(
            tensors,
            #[trigger] s[i],
        ) is None by {
            assert(i == 0 || i == 1);
        }
    }
}

proof fn lemma_tconv(tensors: Tensors, p: Seq<char>, stride: int)
    ensures
        first_error(tensors, tconv_steps(p, stride)) is None <==> has_tconv(tensors, p, stride),
{
    let s = tconv_steps(p, stride);
    crate::schema::passing_is_passing_each(tensors, s);
    if first_error(tensors, s) is None {
        assert(crate::schema::step_error(tensors, s[0]) is None);
        assert(crate::schema::step_error(tensors, s[1]) is None);
        assert(crate::schema::step_error(tensors, s[2]) is None);
    }
    if has_tconv(tensors, p, stride) {
        assert forall|i: int| 0 <= i < s.len() implies crate::schema::step_error(
            tensors,
            #[trigger] s[i],
        ) is None by {
            assert(i == 0 || i == 1 || i == 2);
        }
    }
}

proof fn lemma_snake(tensors: Tensors, p: Seq<char>)
    ensures
        first_error(tensors, snake_steps(p)) is None <==> has_snake(tensors, p),
{
    let s = snake_steps(p);
    crate::schema::passing_is_passing_each(tensors, s);
    if first_error(tensors, s) is None {
        assert(crate::schema::step_error(tensors, s[0]) is None);
        assert(crate::schema::step_error(tensors, s[1]) is None);
        assert(crate::schema::step_error(tensors, s[2]) is None);
    }
    if has_snake(tensors, p) {
        assert forall|i: int| 0 <= i < s.len() implies crate::schema::step_error(
            tensors,
            #[trigger] s[i],
        ) is None by {
            assert(i == 0 || i == 1 || i == 2);
        }
    }
}

proof fn lemma_unit(tensors: Tensors, p: Seq<char>)
    ensures
        first_error(tensors, unit_steps(p)) is None <==> has_unit(tensors, p),
{
    let a = snake_steps(p + ".act1"@);
    let b = conv_steps(p + ".conv1.conv"@);
    let c = snake_steps(p + ".act2"@);
    let d = conv_steps(p + ".conv2.conv"@);
    lists_pass_together(tensors, a + b + c, d);
    lists_pass_together(tensors, a + b, c);
    lists_pass_together(tensors, a, b);
    lemma_snake(tensors, p + ".act1"@);
    lemma_conv(tensors, p + ".conv1.conv"@);
    lemma_snake(tensors, p + ".act2"@);
    lemma_conv(tensors, p + ".conv2.conv"@);
}

proof fn lemma_block(tensors: Tensors, p: Seq<char>, rate: int)
    ensures
        first_error(tensors, block_steps(p, rate)) is None <==> has_block(tensors, p, rate),
{
    let a = snake_steps(p + ".block.0"@);
    let b = tconv_steps(p + ".block.1.conv"@, rate);
    let c = unit_steps(p + ".block.2"@);
    let d = unit_steps(p + ".block.3"@);
    let e = unit_steps(p + ".block.4"@);
    lists_pass_together(tensors, a + b + c + d, e);
    lists_pass_together(tensors, a + b + c, d);
    lists_pass_together(tensors, a + b, c);
    lists_pass_together(tensors, a, b);
    lemma_snake(tensors, p + ".block.0"@);
    lemma_tconv(tensors, p + ".block.1.conv"@, rate);
    lemma_unit(tensors, p + ".block.2"@);
    lemma_unit(tensors, p + ".block.3"@);
    lemma_unit(tensors, p + ".block.4"@);
}

proof fn lemma_next(tensors: Tensors, p: Seq<char>)
    ensures
        first_error(tensors, next_steps(p)) is None <==> has_next(tensors, p),
{
    let a = conv_steps(p + ".dwconv.conv"@);
    let b = load_steps(p + ".norm.weight"@, 1);
    let c = load_steps(p + ".norm.bias"@, 1);
    let d = load_steps(p + ".pwconv1.weight"@, 2);
    let e = load_steps(p + ".pwconv1.bias"@, 1);
    let f = load_steps(p + ".pwconv2.weight"@, 2);
    let g = load_steps(p + ".pwconv2.bias"@, 1);
    let h = load_steps(p + ".gamma"@, 1);
    lists_pass_together(tensors, a + b + c + d + e + f + g, h);
    lists_pass_together(tensors, a + b + c + d + e + f, g);
    lists_pass_together(tensors, a + b + c + d + e, f);
    lists_pass_together(tensors, a + b + c + d, e);
    lists_pass_together(tensors, a + b + c, d);
    lists_pass_together(tensors, a + b, c);
    lists_pass_together(tensors, a, b);
    lemma_conv(tensors, p + ".dwconv.conv"@);
    short_lists_ask_for_a_rank(tensors, p + ".norm.weight"@, 1);
    short_lists_ask_for_a_rank(tensors, p + ".norm.bias"@, 1);
    short_lists_ask_for_a_rank(tensors, p + ".pwconv1.weight"@, 2);
    short_lists_ask_for_a_rank(tensors, p + ".pwconv1.bias"@, 1);
    short_lists_ask_for_a_rank(tensors, p + ".pwconv2.weight"@, 2);
    short_lists_ask_for_a_rank(tensors, p + ".pwconv2.bias"@, 1);
    short_lists_ask_for_a_rank(tensors, p + ".gamma"@, 1);
}

proof fn lemma_pre_layer(tensors: Tensors, p: Seq<char>)
    ensures
        first_error(tensors, pre_layer_steps(p)) is None <==> has_pre_layer(tensors, p),
{
    let s = pre_layer_steps(p);
    crate::schema::passing_is_passing_each(tensors, s);
    if first_error(tensors, s) is None {
        assert(crate::schema::step_error(tensors, s[0]) is None);
        assert(crate::schema::step_error(tensors, s[1]) is None);
        assert(crate::schema::step_error(tensors, s[2]) is None);
        assert(crate::schema::step_error(tensors, s[3]) is None);
        assert(crate::schema::step_error(tensors, s[4]) is None);
        assert(crate::schema::step_error(tensors, s[5]) is None);
        assert(crate::schema::step_error(tensors, s[6]) is None);
        assert(crate::schema::step_error(tensors, s[7]) is None);
        assert(crate::schema::step_error(tensors, s[8]) is None);
        assert(crate::schema::step_error(tensors, s[9]) is None);
        assert(crate::schema::step_error(tensors, s[10]) is None);
        assert(crate::schema::step_error(tensors, s[11]) is None);
        assert(crate::schema::step_error(tensors, s[12]) is None);
        assert(crate::schema::step_error(tensors, s[13]) is None);
    }
    if has_pre_layer(tensors, p) {
        assert forall|i: int| 0 <= i < s.len() implies crate::schema::step_error(
            tensors,
            #[trigger] s[i],
        ) is None by {
            assert(i == 0 || i == 1 || i == 2 || i == 3 || i == 4 || i == 5 || i == 6 || i == 7
                || i == 8 || i == 9 || i == 10 || i == 11 || i == 12 || i == 13);
        }
    }
}

proof fn lemma_pre_layers(tensors: Tensors, n: nat)
    ensures
        first_error(tensors, pre_layers_steps(n)) is None <==> forall|i: int|
            0 <= i < n ==> has_pre_layer(tensors, #[trigger] pre_layer_name(i)),
    decreases n,
{
    if n > 0 {
        let m = (n - 1) as nat;
        let p = part("decoder.pre_transformer.layers."@, n - 1, ""@);
        lists_pass_together(tensors, pre_layers_steps(m), pre_layer_steps(p));
        lemma_pre_layers(tensors, m);
        reveal_strlit("");
        assert(p =~= pre_layer_name(n - 1));
        lemma_pre_layer(tensors, p);
    }
}

/// The prefix of a transformer layer.
pub open spec fn pre_layer_name(i: int) -> Seq<char> {
    "decoder.pre_transformer.layers."@ + digits(i as nat)
}

proof fn lemma_codebook(tensors: Tensors, p: Seq<char>)
    ensures
        first_error(tensors, codebook_steps(p)) is None <==> has_codebook(tensors, p),
{
    let s = codebook_steps(p);
    crate::schema::passing_is_passing_each(tensors, s);
    if first_error(tensors, s) is None {
        assert(crate::schema::step_error(tensors, s[0]) is None);
        assert(crate::schema::step_error(tensors, s[1]) is None);
        assert(crate::schema::step_error(tensors, s[2]) is None);
    }
    if has_codebook(tensors, p) {
        assert forall|i: int| 0 <= i < s.len() implies crate::schema::step_error(
            tensors,
            #[trigger] s[i],
        ) is None by {
            assert(i == 0 || i == 1 || i == 2);
        }
    }
}

proof fn lemma_codebooks(tensors: Tensors, n: nat)
    ensures
        first_error(tensors, codebooks_steps(n)) is None <==> forall|g: int|
            0 <= g < n ==> has_codebook(tensors, #[trigger] codebook_name(g)),
    decreases n,
{
    if n > 0 {
        let m = (n - 1) as nat;
        lists_pass_together(tensors, codebooks_steps(m), codebook_steps(codebook_name(n - 1)));
        lemma_codebooks(tensors, m);
        lemma_codebook(tensors, codebook_name(n - 1));
    }
}

/// A file passes the decoder's checks exactly where it has every part that the
/// decoder computes with: eight transformer layers, four upsampling blocks with
/// their rates, a codebook for each group, and what comes before, between and
/// behind them.
pub proof fn checked_decoders_have_every_part(tensors: Tensors, g: int)
    ensures
        first_error(tensors, decoder_steps()) is None <==> {
            &&& forall|i: int| 0 <= i < 8 ==> has_pre_layer(tensors, #[trigger] pre_layer_name(i))
            &&& has_block(tensors, "decoder.decoder.1"@, 8)
            &&& has_block(tensors, "decoder.decoder.2"@, 5)
            &&& has_block(tensors, "decoder.decoder.3"@, 4)
            &&& has_block(tensors, "decoder.decoder.4"@, 3)
            &&& forall|g: int| 0 <= g < 16 ==> has_codebook(tensors, #[trigger] codebook_name(g))
            &&& has_frame(tensors)
        },
        g == 0 ==> codebook_name(g) == "decoder.quantizer.rvq_first.vq.layers.0._codebook"@,
        g > 0 ==> codebook_name(g) == "decoder.quantizer.rvq_rest.vq.layers."@ + digits(
            (g - 1) as nat,
        ) + "._codebook"@,
{
    let a = pre_layers_steps(8);
    let b = block_steps("decoder.decoder.1"@, 8);
    let c = block_steps("decoder.decoder.2"@, 5);
    let d = block_steps("decoder.decoder.3"@, 4);
    let e = block_steps("decoder.decoder.4"@, 3);
    let f = codebooks_steps(CODEBOOKS as nat);
    let h = frame_steps();
    lists_pass_together(tensors, a + b + c + d + e + f, h);
    lists_pass_together(tensors, a + b + c + d + e, f);
    lists_pass_together(tensors, a + b + c + d, e);
    lists_pass_together(tensors, a + b + c, d);
    lists_pass_together(tensors, a + b, c);
    lists_pass_together(tensors, a, b);
    lemma_pre_layers(tensors, 8);
    lemma_block(tensors, "decoder.decoder.1"@, 8);
    lemma_block(tensors, "decoder.decoder.2"@, 5);
    lemma_block(tensors, "decoder.decoder.3"@, 4);
    lemma_block(tensors, "decoder.decoder.4"@, 3);
    lemma_codebooks(tensors, CODEBOOKS as nat);
    lemma_frame(tensors);
}

/// What a decoder has besides its layers, blocks and codebooks: the projections
/// behind the codebooks, the convolution and the projections around the
/// transformer, two stages that double the rate, the convolutions around the
/// blocks and the activation before the last.
pub open spec fn has_frame(tensors: Tensors) -> bool {
    &&& loadable(tensors, "decoder.quantizer.rvq_first.output_proj.weight"@, 3)
    &&& tensors["decoder.quantizer.rvq_first.output_proj.weight"@].shape[2] == 1
    &&& loadable(tensors, "decoder.quantizer.rvq_rest.output_proj.weight"@, 3)
    &&& tensors["decoder.quantizer.rvq_rest.output_proj.weight"@].shape[2] == 1
    &&& has_conv(tensors, "decoder.pre_conv.conv"@)
    &&& loadable(tensors, "decoder.pre_transformer.input_proj.weight"@, 2)
    &&& loadable(tensors, "decoder.pre_transformer.input_proj.bias"@, 1)
    &&& loadable(tensors, "decoder.pre_transformer.norm.weight"@, 1)
    &&& loadable(tensors, "decoder.pre_transformer.output_proj.weight"@, 2)
    &&& loadable(tensors, "decoder.pre_transformer.output_proj.bias"@, 1)
    &&& has_tconv(tensors, "decoder.upsample.0.0.conv"@, 2)
    &&& has_tconv(tensors, "decoder.upsample.1.0.conv"@, 2)
    &&& has_next(tensors, "decoder.upsample.0.1"@)
    &&& has_next(tensors, "decoder.upsample.1.1"@)
    &&& has_conv(tensors, "decoder.decoder.0.conv"@)
    &&& has_snake(tensors, "decoder.decoder.5"@)
    &&& has_conv(tensors, "decoder.decoder.6.conv"@)
}

proof fn lemma_frame(tensors: Tensors)
    ensures
        first_error(tensors, frame_steps()) is None <==> has_frame(tensors),
{
    let a = pointwise_steps("decoder.quantizer.rvq_first.output_proj.weight"@);
    let b = pointwise_steps("decoder.quantizer.rvq_rest.output_proj.weight"@);
    let c = conv_steps("decoder.pre_conv.conv"@);
    let d = load_steps("decoder.pre_transformer.input_proj.weight"@, 2);
    let e = load_steps("decoder.pre_transformer.input_proj.bias"@, 1);
    let f = load_steps("decoder.pre_transformer.norm.weight"@, 1);
    let g = load_steps("decoder.pre_transformer.output_proj.weight"@, 2);
    let h = load_steps("decoder.pre_transformer.output_proj.bias"@, 1);
    let i = tconv_steps("decoder.upsample.0.0.conv"@, 2);
    let j = tconv_steps("decoder.upsample.1.0.conv"@, 2);
    let k = next_steps("decoder.upsample.0.1"@);
    let l = next_steps("decoder.upsample.1.1"@);
    let m = conv_steps("decoder.decoder.0.conv"@);
    let n = snake_steps("decoder.decoder.5"@);
    let o = conv_steps("decoder.decoder.6.conv"@);
    lists_pass_together(tensors, a + b + c + d + e + f + g + h + i + j + k + l + m + n, o);
    lists_pass_together(tensors, a + b + c + d + e + f + g + h + i + j + k + l + m, n);
    lists_pass_together(tensors, a + b + c + d + e + f + g + h + i + j + k + l, m);
    lists_pass_together(tensors, a + b + c + d + e + f + g + h + i + j + k, l);
    lists_pass_together(tensors, a + b + c + d + e + f + g + h + i + j, k);
    lists_pass_together(tensors, a + b + c + d + e + f + g + h + i, j);
    lists_pass_together(tensors, a + b + c + d + e + f + g + h, i);
    lists_pass_together(tensors, a + b + c + d + e + f + g, h);
    lists_pass_together(tensors, a + b + c + d + e + f, g);
    lists_pass_together(tensors, a + b + c + d + e, f);
    lists_pass_together(tensors, a + b + c + d, e);
    lists_pass_together(tensors, a + b + c, d);
    lists_pass_together(tensors, a + b, c);
    lists_pass_together(tensors, a, b);
    short_lists_ask_for_a_rank(tensors, "decoder.quantizer.rvq_first.output_proj.weight"@, 3);
    short_lists_ask_for_a_rank(tensors, "decoder.quantizer.rvq_rest.output_proj.weight"@, 3);
    lemma_conv(tensors, "decoder.pre_conv.conv"@);
    short_lists_ask_for_a_rank(tensors, "decoder.pre_transformer.input_proj.weight"@, 2);
    short_lists_ask_for_a_rank(tensors, "decoder.pre_transformer.input_proj.bias"@, 1);
    short_lists_ask_for_a_rank(tensors, "decoder.pre_transformer.norm.weight"@, 1);
    short_lists_ask_for_a_rank(tensors, "decoder.pre_transformer.output_proj.weight"@, 2);
    short_lists_ask_for_a_rank(tensors, "decoder.pre_transformer.output_proj.bias"@, 1);
    lemma_tconv(tensors, "decoder.upsample.0.0.conv"@, 2);
    lemma_tconv(tensors, "decoder.upsample.1.0.conv"@, 2);
    lemma_next(tensors, "decoder.upsample.0.1"@);
    lemma_next(tensors, "decoder.upsample.1.1"@);
    lemma_conv(tensors, "decoder.decoder.0.conv"@);
    lemma_snake(tensors, "decoder.decoder.5"@);
    lemma_conv(tensors, "decoder.decoder.6.conv"@);
}

/// What is told of a file that is no decoder is the first fault in the layers,
/// then in the blocks one by one, then in the codebooks, then in the rest.
pub proof fn decoders_are_checked_part_by_part(tensors: Tensors)
    ensures
        first_error(tensors, decoder_steps()) == crate::schema::first_told(
            seq![
                first_error(tensors, pre_layers_steps(8)),
                first_error(tensors, block_steps("decoder.decoder.1"@, 8)),
                first_error(tensors, block_steps("decoder.decoder.2"@, 5)),
                first_error(tensors, block_steps("decoder.decoder.3"@, 4)),
                first_error(tensors, block_steps("decoder.decoder.4"@, 3)),
                first_error(tensors, codebooks_steps(16)),
                first_error(tensors, frame_steps()),
            ],
        ),
{
    let a = pre_layers_steps(8);
    let b = block_steps("decoder.decoder.1"@, 8);
    let c = block_steps("decoder.decoder.2"@, 5);
    let d = block_steps("decoder.decoder.3"@, 4);
    let e = block_steps("decoder.decoder.4"@, 3);
    let f = codebooks_steps(16);
    let g = frame_steps();
    crate::schema::lists_pass_together(tensors, a + b + c + d + e + f, g);
    crate::schema::lists_pass_together(tensors, a + b + c + d + e, f);
    crate::schema::lists_pass_together(tensors, a + b + c + d, e);
    crate::schema::lists_pass_together(tensors, a + b + c, d);
    crate::schema::lists_pass_together(tensors, a + b, c);
    crate::schema::lists_pass_together(tensors, a, b);
    reveal_with_fuel(crate::schema::first_told, 8);
}

} // verus!
