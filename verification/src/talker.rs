//! The talker: which weights it needs, which ids it takes, and where a pass
//! over its key/value cache reads and writes.

use crate::error::{ErrorView, TtsError};
use crate::ieee::{Double, Single, SINGLE_SIGN};
use crate::pipeline::MAX_POSITIONS;
use crate::schema::{
    check, extent_in, first_error, linear_steps, load_steps, no_steps, part, part_name, put,
    put_all, put_linear, put_load, put_vector, steps_of, under, vector_steps, Dim, DimView, Step,
    StepView, Tensors,
};
use crate::text::{decimal, digits};
use crate::weights::WeightFile;
use vstd::prelude::*;

verus! {

/// 1000000 in double precision.
pub const DOUBLE_1E6: u64 = 0x412e_8480_0000_0000;

/// 0.000001 in double precision.
pub const DOUBLE_1E_6: u64 = 0x3eb0_c6f7_a0b5_ed8d;

/// The attention bias that is used until another one is set, 0.5, in single
/// precision.
pub const DEFAULT_ATTN_BOOST: u32 = 0x3f00_0000;

/// The sizes of a talker.
#[derive(Clone, Copy, Debug)]
pub struct TalkerConfig {
    pub layers: usize,
    pub hidden: usize,
    pub heads: usize,
    pub kv_heads: usize,
    pub head_dim: usize,
    pub rope_theta: Double,
    pub rms_eps: Double,
}

/// The talker of the 1.7B model.
pub open spec fn talker_1_7b_cfg() -> TalkerConfig {
    TalkerConfig {
        layers: 28,
        hidden: 2048,
        heads: 16,
        kv_heads: 8,
        head_dim: 128,
        rope_theta: Double { bits: DOUBLE_1E6 },
        rms_eps: Double { bits: DOUBLE_1E_6 },
    }
}

/// The talker of the 1.7B model.
pub fn talker_1_7b() -> (r: TalkerConfig)
    ensures
        r == talker_1_7b_cfg(),
{
    TalkerConfig {
        layers: 28,
        hidden: 2048,
        heads: 16,
        kv_heads: 8,
        head_dim: 128,
        rope_theta: Double { bits: DOUBLE_1E6 },
        rms_eps: Double { bits: DOUBLE_1E_6 },
    }
}

/// Whether heads can be shared out to key/value heads and split in halves.
pub open spec fn heads_fit(heads: usize, kv_heads: usize, head_dim: usize) -> bool {
    kv_heads != 0 && heads % kv_heads == 0 && head_dim % 2 == 0
}

/// Whether heads can be shared out to key/value heads and split in halves.
pub fn heads_consistent(heads: usize, kv_heads: usize, head_dim: usize) -> (r: bool)
    ensures
        r == heads_fit(heads, kv_heads, head_dim),
{
    kv_heads != 0 && heads % kv_heads == 0 && head_dim % 2 == 0
}

/// What layer `i` under a prefix is known by.
pub open spec fn layer_probe(prefix: Seq<char>, i: int) -> Seq<char> {
    part(prefix + "."@, i, ".input_layernorm.weight"@)
}

/// A configuration that claims another number of layers than a file holds.
pub open spec fn layer_count_error(tensors: Tensors, prefix: Seq<char>, layers: int) -> Option<
    ErrorView,
> {
    let claim = "config says "@ + digits(layers as nat) + " layers under "@ + prefix
        + " but the weights hold "@;
    if layers == 0 || !tensors.contains_key(layer_probe(prefix, layers - 1)) {
        Some(ErrorView::InvalidConfig(claim + "fewer"@))
    } else if tensors.contains_key(layer_probe(prefix, layers)) {
        Some(ErrorView::InvalidConfig(claim + "more"@))
    } else {
        None
    }
}

fn probe(wf: &WeightFile<'_>, prefix: &str, i: usize) -> (r: bool)
    ensures
        r == wf@.contains_key(layer_probe(prefix@, i as int)),
{
    let name: String = part_name(under(prefix, ".").as_str(), i, ".input_layernorm.weight");
    wf.has(name.as_str())
}

/// The configuration must claim exactly the layers the file holds.
pub fn expect_layer_count(wf: &WeightFile<'_>, prefix: &str, layers: usize) -> (r: Result<
    (),
    TtsError,
>)
    requires
        layers < usize::MAX,
    ensures
        match r {
            Ok(_) => layer_count_error(wf@, prefix@, layers as int) is None,
            Err(e) => layer_count_error(wf@, prefix@, layers as int) == Some(e@),
        },
{
    let claim: String = "config says ".to_string().concat(decimal(layers as u64).as_str()).concat(
        " layers under ",
    ).concat(prefix).concat(" but the weights hold ");
    if layers == 0 || !probe(wf, prefix, layers - 1) {
        return Err(TtsError::InvalidConfig(claim.concat("fewer")));
    }
    if probe(wf, prefix, layers) {
        return Err(TtsError::InvalidConfig(claim.concat("more")));
    }
    Ok(())
}

/// The sizes of a transformer layer.
#[derive(Clone, Copy, Debug)]
pub struct LayerSize {
    pub hidden: usize,
    pub heads: usize,
    pub kv_heads: usize,
    pub head_dim: usize,
}

/// The width of the gated layer below `p`: the rows of its gating weight.
pub open spec fn gate_width(p: Seq<char>) -> DimView {
    DimView::SameAs { name: p + ".mlp.gate_proj.weight"@, axis: 0 }
}

/// The checks of the layer under `p`.
pub open spec fn layer_steps(p: Seq<char>, z: LayerSize) -> Seq<StepView> {
    let hidden = DimView::Exactly(z.hidden as int);
    let q = DimView::Exactly(z.heads * z.head_dim);
    let kv = DimView::Exactly(z.kv_heads * z.head_dim);
    let head = DimView::Exactly(z.head_dim as int);
    let gate = p + ".mlp.gate_proj.weight"@;
    let up = p + ".mlp.up_proj.weight"@;
    linear_steps(p + ".self_attn.q_proj.weight"@, q, hidden) + linear_steps(
        p + ".self_attn.k_proj.weight"@,
        kv,
        hidden,
    ) + linear_steps(p + ".self_attn.v_proj.weight"@, kv, hidden) + load_steps(gate, 2)
        + load_steps(up, 2) + seq![
        StepView::Matrix { name: gate, rows: gate_width(p), cols: hidden },
        StepView::Matrix { name: up, rows: gate_width(p), cols: hidden },
    ] + vector_steps(p + ".self_attn.q_norm.weight"@, head) + vector_steps(
        p + ".self_attn.k_norm.weight"@,
        head,
    ) + linear_steps(p + ".self_attn.o_proj.weight"@, hidden, q) + linear_steps(
        p + ".mlp.down_proj.weight"@,
        hidden,
        gate_width(p),
    ) + vector_steps(p + ".input_layernorm.weight"@, hidden) + vector_steps(
        p + ".post_attention_layernorm.weight"@,
        hidden,
    )
}

fn same_as(name: String, axis: usize) -> (r: Dim)
    ensures
        r@ == (DimView::SameAs { name: name@, axis: axis as int }),
{
    Dim::SameAs { name, axis }
}

/// The checks of the layer under `p`: queries, keys and values fit the heads,
/// the gated layer is as wide as its gating weight, every norm has its length.
pub fn layer_schema(p: &str, z: &LayerSize) -> (r: Vec<Step>)
    requires
        z.heads * z.head_dim <= usize::MAX,
        z.kv_heads * z.head_dim <= usize::MAX,
    ensures
        steps_of(r@) == layer_steps(p@, *z),
{
    let qd: usize = z.heads * z.head_dim;
    let kvd: usize = z.kv_heads * z.head_dim;
    let mut v: Vec<Step> = no_steps();
    put_linear(
        &mut v,
        under(p, ".self_attn.q_proj.weight"),
        Dim::Exactly(qd),
        Dim::Exactly(z.hidden),
    );
    put_linear(
        &mut v,
        under(p, ".self_attn.k_proj.weight"),
        Dim::Exactly(kvd),
        Dim::Exactly(z.hidden),
    );
    put_linear(
        &mut v,
        under(p, ".self_attn.v_proj.weight"),
        Dim::Exactly(kvd),
        Dim::Exactly(z.hidden),
    );
    put_load(&mut v, under(p, ".mlp.gate_proj.weight"), 2);
    put_load(&mut v, under(p, ".mlp.up_proj.weight"), 2);
    let mut wide: Vec<Step> = no_steps();
    put(
        &mut wide,
        Step::Matrix {
            name: under(p, ".mlp.gate_proj.weight"),
            rows: same_as(under(p, ".mlp.gate_proj.weight"), 0),
            cols: Dim::Exactly(z.hidden),
        },
    );
    put(
        &mut wide,
        Step::Matrix {
            name: under(p, ".mlp.up_proj.weight"),
            rows: same_as(under(p, ".mlp.gate_proj.weight"), 0),
            cols: Dim::Exactly(z.hidden),
        },
    );
    assert(steps_of(wide@) =~= seq![
        StepView::Matrix {
            name: p@ + ".mlp.gate_proj.weight"@,
            rows: gate_width(p@),
            cols: DimView::Exactly(z.hidden as int),
        },
        StepView::Matrix {
            name: p@ + ".mlp.up_proj.weight"@,
            rows: gate_width(p@),
            cols: DimView::Exactly(z.hidden as int),
        },
    ]);
    put_all(&mut v, wide);
    put_vector(&mut v, under(p, ".self_attn.q_norm.weight"), Dim::Exactly(z.head_dim));
    put_vector(&mut v, under(p, ".self_attn.k_norm.weight"), Dim::Exactly(z.head_dim));
    put_linear(
        &mut v,
        under(p, ".self_attn.o_proj.weight"),
        Dim::Exactly(z.hidden),
        Dim::Exactly(qd),
    );
    put_linear(
        &mut v,
        under(p, ".mlp.down_proj.weight"),
        Dim::Exactly(z.hidden),
        same_as(under(p, ".mlp.gate_proj.weight"), 0),
    );
    put_vector(&mut v, under(p, ".input_layernorm.weight"), Dim::Exactly(z.hidden));
    put_vector(&mut v, under(p, ".post_attention_layernorm.weight"), Dim::Exactly(z.hidden));
    assert(Seq::<StepView>::empty() + linear_steps(
        p@ + ".self_attn.q_proj.weight"@,
        DimView::Exactly(qd as int),
        DimView::Exactly(z.hidden as int),
    ) =~= linear_steps(
        p@ + ".self_attn.q_proj.weight"@,
        DimView::Exactly(qd as int),
        DimView::Exactly(z.hidden as int),
    ));
    v
}

/// The checks of the first `n` layers under a prefix.
pub open spec fn layers_steps(prefix: Seq<char>, n: nat, z: LayerSize) -> Seq<StepView>
    decreases n,
{
    if n == 0 {
        Seq::empty()
    } else {
        layers_steps(prefix, (n - 1) as nat, z) + layer_steps(
            part(prefix + "."@, n - 1, Seq::empty()),
            z,
        )
    }
}

/// The checks of the first `n` layers under a prefix.
pub fn layers_schema(prefix: &str, n: usize, z: &LayerSize) -> (r: Vec<Step>)
    requires
        z.heads * z.head_dim <= usize::MAX,
        z.kv_heads * z.head_dim <= usize::MAX,
    ensures
        steps_of(r@) == layers_steps(prefix@, n as nat, *z),
{
    let mut v: Vec<Step> = no_steps();
    let dotted: String = under(prefix, ".");
    let mut i: usize = 0;
    while i < n
        invariant
            i <= n,
            z.heads * z.head_dim <= usize::MAX,
            z.kv_heads * z.head_dim <= usize::MAX,
            dotted@ == prefix@ + "."@,
            steps_of(v@) == layers_steps(prefix@, i as nat, *z),
        decreases n - i,
    {
        let p: String = part_name(dotted.as_str(), i, "");
        proof {
            reveal_strlit("");
            assert(""@ =~= Seq::empty());
        }
        put_all(&mut v, layer_schema(p.as_str(), z));
        i = i + 1;
    }
    v
}

/// The table of text embeddings.
pub const TEXT_EMBEDDING: &'static str = "talker.model.text_embedding.weight";

/// The first projection of a text embedding.
pub const TEXT_FC1: &'static str = "talker.text_projection.linear_fc1.weight";

/// The bias of the first projection.
pub const TEXT_FC1_BIAS: &'static str = "talker.text_projection.linear_fc1.bias";

/// The second projection of a text embedding.
pub const TEXT_FC2: &'static str = "talker.text_projection.linear_fc2.weight";

/// The bias of the second projection.
pub const TEXT_FC2_BIAS: &'static str = "talker.text_projection.linear_fc2.bias";

/// The table of codec embeddings.
pub const CODEC_EMBEDDING: &'static str = "talker.model.codec_embedding.weight";

/// The norm behind the last layer.
pub const FINAL_NORM: &'static str = "talker.model.norm.weight";

/// The projection to codec logits.
pub const CODEC_HEAD: &'static str = "talker.codec_head.weight";

/// Where the layers stand.
pub const TALKER_LAYERS: &'static str = "talker.model.layers";

/// The layer sizes of a talker.
pub open spec fn layer_size_of(cfg: TalkerConfig) -> LayerSize {
    LayerSize {
        hidden: cfg.hidden,
        heads: cfg.heads,
        kv_heads: cfg.kv_heads,
        head_dim: cfg.head_dim,
    }
}

/// The checks of the text side: the table is gathered row by row, its rows go
/// through two projections that fit each other and the layers.
pub open spec fn text_steps(hidden: int) -> Seq<StepView> {
    let wide = DimView::SameAs { name: TEXT_FC1@, axis: 0 };
    seq![
        StepView::Rows { name: TEXT_EMBEDDING@ },
        StepView::Load { name: TEXT_FC1@, rank: 2 },
        StepView::Load { name: TEXT_FC1_BIAS@, rank: 1 },
        StepView::Load { name: TEXT_FC2@, rank: 2 },
        StepView::Load { name: TEXT_FC2_BIAS@, rank: 1 },
        StepView::Matrix {
            name: TEXT_FC1@,
            rows: wide,
            cols: DimView::SameAs { name: TEXT_EMBEDDING@, axis: 1 },
        },
        StepView::Vector { name: TEXT_FC1_BIAS@, len: wide },
        StepView::Matrix { name: TEXT_FC2@, rows: DimView::Exactly(hidden), cols: wide },
        StepView::Vector { name: TEXT_FC2_BIAS@, len: DimView::Exactly(hidden) },
    ]
}

/// The checks of the codec side: the head gives a logit for every row of the
/// embedding table.
pub open spec fn codec_steps(hidden: int) -> Seq<StepView> {
    linear_steps(
        CODEC_EMBEDDING@,
        DimView::Free("vocab"@),
        DimView::Exactly(hidden),
    ) + vector_steps(FINAL_NORM@, DimView::Exactly(hidden)) + linear_steps(
        CODEC_HEAD@,
        DimView::SameAs { name: CODEC_EMBEDDING@, axis: 0 },
        DimView::Exactly(hidden),
    )
}

/// All checks of a talker, in order.
pub open spec fn talker_steps(cfg: TalkerConfig) -> Seq<StepView> {
    layers_steps(TALKER_LAYERS@, cfg.layers as nat, layer_size_of(cfg)) + text_steps(
        cfg.hidden as int,
    ) + codec_steps(cfg.hidden as int)
}

fn text_schema(hidden: usize) -> (r: Vec<Step>)
    ensures
        steps_of(r@) == text_steps(hidden as int),
{
    let mut v: Vec<Step> = no_steps();
    put(&mut v, Step::Rows { name: TEXT_EMBEDDING.to_string() });
    put(&mut v, Step::Load { name: TEXT_FC1.to_string(), rank: 2 });
    put(&mut v, Step::Load { name: TEXT_FC1_BIAS.to_string(), rank: 1 });
    put(&mut v, Step::Load { name: TEXT_FC2.to_string(), rank: 2 });
    put(&mut v, Step::Load { name: TEXT_FC2_BIAS.to_string(), rank: 1 });
    put(
        &mut v,
        Step::Matrix {
            name: TEXT_FC1.to_string(),
            rows: same_as(TEXT_FC1.to_string(), 0),
            cols: same_as(TEXT_EMBEDDING.to_string(), 1),
        },
    );
    put(
        &mut v,
        Step::Vector { name: TEXT_FC1_BIAS.to_string(), len: same_as(TEXT_FC1.to_string(), 0) },
    );
    put(
        &mut v,
        Step::Matrix {
            name: TEXT_FC2.to_string(),
            rows: Dim::Exactly(hidden),
            cols: same_as(TEXT_FC1.to_string(), 0),
        },
    );
    put(&mut v, Step::Vector { name: TEXT_FC2_BIAS.to_string(), len: Dim::Exactly(hidden) });
    assert(steps_of(v@) =~= text_steps(hidden as int));
    v
}

fn codec_schema(hidden: usize) -> (r: Vec<Step>)
    ensures
        steps_of(r@) == codec_steps(hidden as int),
{
    let mut v: Vec<Step> = no_steps();
    put_linear(
        &mut v,
        CODEC_EMBEDDING.to_string(),
        Dim::Free("vocab".to_string()),
        Dim::Exactly(hidden),
    );
    put_vector(&mut v, FINAL_NORM.to_string(), Dim::Exactly(hidden));
    put_linear(
        &mut v,
        CODEC_HEAD.to_string(),
        same_as(CODEC_EMBEDDING.to_string(), 0),
        Dim::Exactly(hidden),
    );
    assert(steps_of(v@) =~= codec_steps(hidden as int));
    v
}

/// Why a file cannot serve as a talker, if it cannot.
pub open spec fn talker_error(tensors: Tensors, cfg: TalkerConfig) -> Option<ErrorView> {
    if !heads_fit(cfg.heads, cfg.kv_heads, cfg.head_dim) {
        Some(
            ErrorView::InvalidConfig(
                "talker heads "@ + digits(cfg.heads as nat) + " / kv_heads "@ + digits(
                    cfg.kv_heads as nat,
                ) + " / head_dim "@ + digits(cfg.head_dim as nat) + " are inconsistent"@,
            ),
        )
    } else {
        match layer_count_error(tensors, TALKER_LAYERS@, cfg.layers as int) {
            Some(e) => Some(e),
            None => first_error(tensors, talker_steps(cfg)),
        }
    }
}

/// A talker whose weights were checked.
#[derive(Clone, Copy, Debug)]
pub struct Talker {
    pub cfg: TalkerConfig,
    /// Rows of the text embedding table.
    pub text_rows: usize,
    /// Rows of the codec embedding table.
    pub codec_rows: usize,
}

/// The first id that is no row of the codec embedding table.
pub open spec fn stray_codec_id(ids: Seq<u32>, rows: int) -> Option<ErrorView> {
    match crate::weights::first_stray(ids, rows, 0) {
        Some(k) => Some(
            ErrorView::InvalidPrompt(
                "codec token id "@ + digits(ids[k] as nat) + " is out of range ("@ + digits(
                    rows as nat,
                ) + " rows)"@,
            ),
        ),
        None => None,
    }
}

impl Talker {
    /// Checks that a file holds a talker of these sizes.
    pub fn load(wf: &WeightFile<'_>, cfg: TalkerConfig) -> (r: Result<Self, TtsError>)
        requires
            cfg.layers < usize::MAX,
            cfg.heads * cfg.head_dim <= usize::MAX,
            cfg.kv_heads * cfg.head_dim <= usize::MAX,
        ensures
            match r {
                Ok(t) => {
                    &&& talker_error(wf@, cfg) is None
                    &&& t.cfg == cfg
                    &&& t.text_rows == extent_in(wf@, TEXT_EMBEDDING@, 0)
                    &&& t.codec_rows == extent_in(wf@, CODEC_EMBEDDING@, 0)
                },
                Err(e) => talker_error(wf@, cfg) == Some(e@),
            },
    {
        if !heads_consistent(cfg.heads, cfg.kv_heads, cfg.head_dim) {
            return Err(
                TtsError::InvalidConfig(
                    "talker heads ".to_string().concat(decimal(cfg.heads as u64).as_str()).concat(
                        " / kv_heads ",
                    ).concat(decimal(cfg.kv_heads as u64).as_str()).concat(" / head_dim ").concat(
                        decimal(cfg.head_dim as u64).as_str(),
                    ).concat(" are inconsistent"),
                ),
            );
        }
        expect_layer_count(wf, TALKER_LAYERS, cfg.layers)?;
        let size: LayerSize = LayerSize {
            hidden: cfg.hidden,
            heads: cfg.heads,
            kv_heads: cfg.kv_heads,
            head_dim: cfg.head_dim,
        };
        let mut steps: Vec<Step> = layers_schema(TALKER_LAYERS, cfg.layers, &size);
        put_all(&mut steps, text_schema(cfg.hidden));
        put_all(&mut steps, codec_schema(cfg.hidden));
        check(wf, &steps)?;
        Ok(
            Talker {
                cfg,
                text_rows: crate::schema::extent(wf, TEXT_EMBEDDING, 0),
                codec_rows: crate::schema::extent(wf, CODEC_EMBEDDING, 0),
            },
        )
    }

    /// Rows of the text embedding table: every text id must be below this.
    pub fn text_vocab_rows(&self) -> (r: usize)
        ensures
            r == self.text_rows,
    {
        self.text_rows
    }

    /// Rows of the codec embedding table: every codec id must be below this.
    pub fn codec_vocab_rows(&self) -> (r: usize)
        ensures
            r == self.codec_rows,
    {
        self.codec_rows
    }

    /// Refuses ids that are no rows of the codec embedding table.
    pub fn embed_codec_ids(&self, ids: &[u32]) -> (r: Result<(), TtsError>)
        ensures
            match r {
                Ok(_) => stray_codec_id(ids@, self.codec_rows as int) is None,
                Err(e) => stray_codec_id(ids@, self.codec_rows as int) == Some(e@),
            },
    {
        let mut k: usize = 0;
        while k < ids.len()
            invariant
                k <= ids.len(),
                crate::weights::first_stray(ids@, self.codec_rows as int, 0)
                    == crate::weights::first_stray(ids@, self.codec_rows as int, k as int),
            decreases ids.len() - k,
        {
            if ids[k] as usize >= self.codec_rows {
                return Err(
                    TtsError::InvalidPrompt(
                        "codec token id ".to_string().concat(
                            decimal(ids[k] as u64).as_str(),
                        ).concat(" is out of range (").concat(
                            decimal(self.codec_rows as u64).as_str(),
                        ).concat(" rows)"),
                    ),
                );
            }
            k = k + 1;
        }
        Ok(())
    }
}

/// Position `j` can be seen from position `i`.
pub open spec fn visible(i: int, j: int) -> bool {
    j <= i
}

/// The causal mask over `n` positions, row by row: true where a position can
/// be seen.
pub fn causal_mask(n: usize) -> (r: Vec<bool>)
    requires
        n * n <= usize::MAX,
    ensures
        r.len() == n * n,
        forall|i: int, j: int|
            0 <= i < n && 0 <= j < n ==> #[trigger] r[i * n + j] == visible(i, j),
{
    let mut out: Vec<bool> = Vec::new();
    let mut i: usize = 0;
    while i < n
        invariant
            i <= n,
            out.len() == i * n,
            forall|a: int, b: int|
                0 <= a < i && 0 <= b < n ==> #[trigger] out[a * n + b] == visible(a, b),
        decreases n - i,
    {
        let ghost before: Seq<bool> = out@;
        let mut j: usize = 0;
        while j < n
            invariant
                i < n,
                j <= n,
                before.len() == i * n,
                out.len() == i * n + j,
                forall|k: int| 0 <= k < before.len() ==> #[trigger] out[k] == before[k],
                forall|b: int| 0 <= b < j ==> #[trigger] out[i * n + b] == visible(i as int, b),
            decreases n - j,
        {
            out.push(j <= i);
            j = j + 1;
        }
        proof {
            assert(i * n + n == (i + 1) * n) by (nonlinear_arith);
            assert forall|a: int, b: int| 0 <= a < i + 1 && 0 <= b < n implies #[trigger] out[a * n
                + b] == visible(a, b) by {
                if a < i {
                    assert(0 <= a * n + b < i * n) by (nonlinear_arith)
                        requires
                            0 <= a < i,
                            0 <= b < n,
                    ;
                    assert(before[a * n + b] == visible(a, b));
                }
            }
        }
        i = i + 1;
    }
    out
}

/// Where a pass over the key/value cache reads and writes.
#[derive(Clone, Copy, PartialEq, Eq, Debug, Structural)]
pub struct CachedPass {
    /// The positions it writes, and the rows of the rotary table and of the
    /// mask it uses: from here,
    pub from: usize,
    /// to here.
    pub to: usize,
    /// Positions attended over.
    pub max: usize,
    /// Positions whose attention is raised.
    pub boosted: usize,
    /// Query heads of the joint projection: up to here,
    pub q_heads: usize,
    /// key heads: from there up to here,
    pub qk_heads: usize,
    /// value heads: from there up to here.
    pub qkv_heads: usize,
    /// Query heads that share a key head.
    pub group: usize,
}

/// A key/value cache: every step sees the same shapes, so that compiled kernels
/// can be reused; positions past the last one written are masked.
#[derive(Clone, Copy, PartialEq, Eq, Debug, Structural)]
pub struct KvCache {
    pub layers: usize,
    pub kv_heads: usize,
    pub max: usize,
    pub head_dim: usize,
}

impl KvCache {
    /// A cache of `max` positions.
    pub fn new(layers: usize, kv_heads: usize, max: usize, head_dim: usize) -> (r: Self)
        ensures
            r == (KvCache { layers, kv_heads, max, head_dim }),
    {
        KvCache { layers, kv_heads, max, head_dim }
    }

    /// Plans a pass over `len` positions from `offset` on, with attention
    /// raised by `bias` on the first `boost_prefix` positions so that they are
    /// not diluted as the cache grows. A bias of zero raises nothing.
    pub fn run_cached(
        &self,
        heads: usize,
        offset: usize,
        len: usize,
        boost_prefix: usize,
        bias: Single,
    ) -> (r: CachedPass)
        requires
            offset + len <= self.max,
            offset + len <= MAX_POSITIONS,
            self.kv_heads > 0,
            heads + 2 * self.kv_heads <= usize::MAX,
        ensures
            r == (CachedPass {
                from: offset,
                to: (offset + len) as usize,
                max: self.max,
                boosted: if bias.key() == 0 {
                    0
                } else if boost_prefix < self.max {
                    boost_prefix
                } else {
                    self.max
                },
                q_heads: heads,
                qk_heads: (heads + self.kv_heads) as usize,
                qkv_heads: (heads + 2 * self.kv_heads) as usize,
                group: (heads / self.kv_heads) as usize,
            }),
    {
        CachedPass {
            from: offset,
            to: offset + len,
            max: self.max,
            boosted: if bias.bits == 0 || bias.bits == SINGLE_SIGN {
                0
            } else if boost_prefix < self.max {
                boost_prefix
            } else {
                self.max
            },
            q_heads: heads,
            qk_heads: heads + self.kv_heads,
            qkv_heads: heads + 2 * self.kv_heads,
            group: heads / self.kv_heads,
        }
    }
}

/// How the joint projection of a full pass is cut: queries up to `q_to`, keys
/// from there up to `k_to`, values from there up to `v_to`.
#[derive(Clone, Copy, PartialEq, Eq, Debug, Structural)]
pub struct QkvSplit {
    pub q_to: usize,
    pub k_to: usize,
    pub v_to: usize,
    /// Query heads that share a key head.
    pub group: usize,
}

impl TalkerConfig {
    /// How the joint projection of a full pass is cut.
    pub fn forward_hidden(&self) -> (r: QkvSplit)
        requires
            self.kv_heads > 0,
            (self.heads + 2 * self.kv_heads) * self.head_dim <= usize::MAX,
        ensures
            r.q_to == self.heads * self.head_dim,
            r.k_to == r.q_to + self.kv_heads * self.head_dim,
            r.v_to == r.k_to + self.kv_heads * self.head_dim,
            r.group == self.heads / self.kv_heads,
    {
        let d: usize = self.head_dim;
        assert((self.heads + 2 * self.kv_heads) * d == self.heads * d + 2 * (self.kv_heads * d)
            && self.heads * d >= 0 && self.kv_heads * d >= 0) by (nonlinear_arith);
        let q: usize = self.heads * d;
        let kv: usize = self.kv_heads * d;
        QkvSplit { q_to: q, k_to: q + kv, v_to: q + kv + kv, group: self.heads / self.kv_heads }
    }
}

/// Every position that a pass can see has been written: by the pass itself, or
/// by one before it, where the passes follow one another without a gap.
pub proof fn only_written_positions_are_seen(pass: CachedPass, written: int, p: int, j: int)
    requires
        pass.from <= written,
        pass.from <= p < pass.to,
        visible(p, j),
        0 <= j,
    ensures
        j < written || pass.from <= j < pass.to,
{
}

/// The weights of a talker that was loaded fit together: text rows go through
/// both projections into the layers, and the head gives one logit for each row
/// of the codec embedding table.
pub proof fn checked_talkers_fit_together(tensors: Tensors, cfg: TalkerConfig)
    requires
        talker_error(tensors, cfg) is None,
    ensures
        extent_in(tensors, TEXT_FC1@, 1) == extent_in(tensors, TEXT_EMBEDDING@, 1),
        extent_in(tensors, TEXT_FC2@, 1) == extent_in(tensors, TEXT_FC1@, 0),
        extent_in(tensors, TEXT_FC2@, 0) == cfg.hidden,
        extent_in(tensors, CODEC_EMBEDDING@, 1) == cfg.hidden,
        extent_in(tensors, CODEC_HEAD@, 0) == extent_in(tensors, CODEC_EMBEDDING@, 0),
        extent_in(tensors, CODEC_HEAD@, 1) == cfg.hidden,
{
    let a = layers_steps(TALKER_LAYERS@, cfg.layers as nat, layer_size_of(cfg));
    let b = text_steps(cfg.hidden as int);
    let c = codec_steps(cfg.hidden as int);
    let all = talker_steps(cfg);
    crate::schema::passing_is_passing_each(tensors, all);
    assert(b.len() == 9 && c.len() == 6);
    assert(all[a.len() as int + 5] == b[5]);
    assert(all[a.len() as int + 7] == b[7]);
    assert(all[a.len() as int + 9 + 1] == c[1]);
    assert(all[a.len() as int + 9 + 5] == c[5]);
}

/// The talker of the 1.7B model: 28 layers of 2048, sixteen heads of 128 that
/// share eight key heads two by two.
pub proof fn the_talker_is_as_published()
    ensures
        ({
            let c = talker_1_7b_cfg();
            &&& c.layers == 28
            &&& c.hidden == 2048
            &&& c.heads == 16
            &&& c.kv_heads == 8
            &&& c.head_dim == 128
            &&& c.rope_theta.bits == 0x412e_8480_0000_0000
            &&& c.rms_eps.bits == 0x3eb0_c6f7_a0b5_ed8d
        }),
        heads_fit(16, 8, 128),
{
}

/// Heads fit where every key head is shared by the same number of query heads
/// and a head has two halves.
pub proof fn heads_are_shared_evenly(heads: usize, kv_heads: usize, head_dim: usize)
    ensures
        heads_fit(heads, kv_heads, head_dim) <==> kv_heads > 0 && (exists|n: int|
            #[trigger] (n * kv_heads) == heads) && exists|half: int| #[trigger] (2 * half)
            == head_dim,
{
    if kv_heads > 0 {
        let n = heads as int / kv_heads as int;
        vstd::arithmetic::div_mod::lemma_fundamental_div_mod(heads as int, kv_heads as int);
        assert(kv_heads * n == n * kv_heads) by (nonlinear_arith);
        if heads % kv_heads == 0 {
            assert(n * kv_heads == heads);
        }
        if exists|n: int| #[trigger] (n * kv_heads) == heads {
            let m = choose|n: int| #[trigger] (n * kv_heads) == heads;
            vstd::arithmetic::div_mod::lemma_mod_multiples_basic(m, kv_heads as int);
        }
    }
    assert(2 * (head_dim as int / 2) == head_dim || head_dim % 2 == 1);
}

/// A file holds the layers that are claimed where it has the last of them and
/// none behind it. Where the last is not there it holds fewer, where another one
/// follows it holds more.
pub proof fn layers_are_counted_by_their_last(tensors: Tensors, prefix: Seq<char>, layers: int)
    requires
        0 <= layers,
    ensures
        ({
            let last = prefix + "."@ + digits((layers - 1) as nat) + ".input_layernorm.weight"@;
            let next = prefix + "."@ + digits(layers as nat) + ".input_layernorm.weight"@;
            let claim = "config says "@ + digits(layers as nat) + " layers under "@ + prefix
                + " but the weights hold "@;
            let error = layer_count_error(tensors, prefix, layers);
            &&& error is None <==> layers > 0 && tensors.contains_key(last)
                && !tensors.contains_key(next)
            &&& layers == 0 || !tensors.contains_key(last) ==> error == Some(
                ErrorView::InvalidConfig(claim + "fewer"@),
            )
            &&& layers > 0 && tensors.contains_key(last) && tensors.contains_key(next) ==> error
                == Some(ErrorView::InvalidConfig(claim + "more"@))
        }),
{
}

/// A talker is refused for its heads before its layers are counted, and for
/// their number before its tensors are looked at.
pub proof fn talkers_are_checked_in_order(tensors: Tensors, cfg: TalkerConfig)
    ensures
        ({
            let even = heads_fit(cfg.heads, cfg.kv_heads, cfg.head_dim);
            let count = layer_count_error(tensors, "talker.model.layers"@, cfg.layers as int);
            &&& !even ==> talker_error(tensors, cfg) == Some(
                ErrorView::InvalidConfig(
                    "talker heads "@ + digits(cfg.heads as nat) + " / kv_heads "@ + digits(
                        cfg.kv_heads as nat,
                    ) + " / head_dim "@ + digits(cfg.head_dim as nat) + " are inconsistent"@,
                ),
            )
            &&& even && count is Some ==> talker_error(tensors, cfg) == count
            &&& even && count is None ==> talker_error(tensors, cfg) == first_error(
                tensors,
                talker_steps(cfg),
            )
        }),
{
}

/// A layer has its tensors: the projections fit the heads and the width, the
/// gated layer is as wide as its gating weight, and every norm has its length.
pub open spec fn has_layer(tensors: Tensors, p: Seq<char>, z: LayerSize) -> bool {
    let wide = extent_in(tensors, p + ".mlp.gate_proj.weight"@, 0);
    let (hidden, head) = (z.hidden as int, z.head_dim as int);
    &&& matrix(tensors, p + ".self_attn.q_proj.weight"@, z.heads * z.head_dim, hidden)
    &&& matrix(tensors, p + ".self_attn.k_proj.weight"@, z.kv_heads * z.head_dim, hidden)
    &&& matrix(tensors, p + ".self_attn.v_proj.weight"@, z.kv_heads * z.head_dim, hidden)
    &&& matrix(tensors, p + ".self_attn.o_proj.weight"@, hidden, z.heads * z.head_dim)
    &&& matrix(tensors, p + ".mlp.gate_proj.weight"@, wide, hidden)
    &&& matrix(tensors, p + ".mlp.up_proj.weight"@, wide, hidden)
    &&& matrix(tensors, p + ".mlp.down_proj.weight"@, hidden, wide)
    &&& vector(tensors, p + ".self_attn.q_norm.weight"@, head)
    &&& vector(tensors, p + ".self_attn.k_norm.weight"@, head)
    &&& vector(tensors, p + ".input_layernorm.weight"@, hidden)
    &&& vector(tensors, p + ".post_attention_layernorm.weight"@, hidden)
}

/// The prefix of a layer.
pub open spec fn layer_name(prefix: Seq<char>, i: int) -> Seq<char> {
    prefix + "."@ + digits(i as nat)
}

/// The layers of a talker or a code predictor pass their checks exactly where
/// each of them has its tensors.
pub proof fn checked_layers_have_their_tensors(
    tensors: Tensors,
    prefix: Seq<char>,
    n: nat,
    z: LayerSize,
)
    ensures
        first_error(tensors, layers_steps(prefix, n, z)) is None <==> forall|i: int|
            0 <= i < n ==> has_layer(tensors, #[trigger] layer_name(prefix, i), z),
    decreases n,
{
    if n > 0 {
        let m = (n - 1) as nat;
        let p = part(prefix + "."@, n - 1, Seq::empty());
        crate::schema::lists_pass_together(
            tensors,
            layers_steps(prefix, m, z),
            layer_steps(p, z),
        );
        checked_layers_have_their_tensors(tensors, prefix, m, z);
        assert(p =~= layer_name(prefix, n - 1));
        lemma_layer(tensors, p, z);
    }
}

/// A matrix that can be loaded and has this shape.
pub open spec fn matrix(tensors: Tensors, name: Seq<char>, rows: int, cols: int) -> bool {
    &&& crate::schema::loadable(tensors, name, 2)
    &&& tensors[name].shape[0] == rows
    &&& tensors[name].shape[1] == cols
}

/// A vector that can be loaded and has this length.
pub open spec fn vector(tensors: Tensors, name: Seq<char>, len: int) -> bool {
    &&& crate::schema::loadable(tensors, name, 1)
    &&& tensors[name].shape[0] == len
}

proof fn lemma_layer(tensors: Tensors, p: Seq<char>, z: LayerSize)
    ensures
        first_error(tensors, layer_steps(p, z)) is None <==> has_layer(tensors, p, z),
{
    let s = layer_steps(p, z);
    crate::schema::passing_is_passing_each(tensors, s);
    assert(s.len() == 22);
    if first_error(tensors, s) is None {
        assert(crate::schema::step_error(tensors, s[0]) is None);
        assert(crate::schema::step_error(tensors, s[1]) is None);
        assert(crate::schema::step_error(tensors, s[2]) is None);
        assert(crate::schema::step_error(tensors, s[3]) is None);
        assert(crate::schema::step_error(tensors, s[4]) is None);
        assert(crate::schema::step_error(tensors, s[5]) is None);
        assert(crate::schema::step_error(tensors, s[6]) is None);
        assert(crate::schema::step_error(tensors, s[7]) is None);
        assert(crate::schema::step_error(tensors, s[8]) is None);
        assert(crate::schema::step_error(tensors, s[9]) is None);
        assert(crate::schema::step_error(tensors, s[10]) is None);
        assert(crate::schema::step_error(tensors, s[11]) is None);
        assert(crate::schema::step_error(tensors, s[12]) is None);
        assert(crate::schema::step_error(tensors, s[13]) is None);
        assert(crate::schema::step_error(tensors, s[14]) is None);
        assert(crate::schema::step_error(tensors, s[15]) is None);
        assert(crate::schema::step_error(tensors, s[16]) is None);
        assert(crate::schema::step_error(tensors, s[17]) is None);
        assert(crate::schema::step_error(tensors, s[18]) is None);
        assert(crate::schema::step_error(tensors, s[19]) is None);
        assert(crate::schema::step_error(tensors, s[20]) is None);
        assert(crate::schema::step_error(tensors, s[21]) is None);
    }
    if has_layer(tensors, p, z) {
        assert forall|i: int| 0 <= i < s.len() implies crate::schema::step_error(
            tensors,
            #[trigger] s[i],
        ) is None by {
            assert(i == 0 || i == 1 || i == 2 || i == 3 || i == 4 || i == 5 || i == 6 || i == 7
                || i == 8 || i == 9 || i == 10 || i == 11 || i == 12 || i == 13 || i == 14
                || i == 15 || i == 16 || i == 17 || i == 18 || i == 19 || i == 20 || i == 21);
        }
    }
}

/// An id is refused exactly where it is no row of the codec table, and the first
/// such id is told; a position sees itself and all before it.
pub proof fn codec_ids_are_rows(ids: Seq<u32>, rows: int, k: int, i: int, j: int)
    requires
        0 <= k < ids.len(),
    ensures
        (forall|i: int| 0 <= i < ids.len() ==> #[trigger] ids[i] < rows) <==> stray_codec_id(
            ids,
            rows,
        ) is None,
        ids[k] >= rows && (forall|i: int| 0 <= i < k ==> #[trigger] ids[i] < rows)
            ==> stray_codec_id(ids, rows) == Some(
            ErrorView::InvalidPrompt(
                "codec token id "@ + digits(ids[k] as nat) + " is out of range ("@ + digits(
                    rows as nat,
                ) + " rows)"@,
            ),
        ),
        visible(i, j) <==> i - j >= 0,
{
    crate::weights::strays_are_found_in_order(ids, rows, k);
}

/// What a talker has besides its layers. A text row goes through two projections
/// that fit each other and the layers, and the head gives a logit for each row of
/// the codec table.
pub open spec fn has_ends(tensors: Tensors, hidden: int) -> bool {
    let wide = extent_in(tensors, "talker.text_projection.linear_fc1.weight"@, 0);
    let rows = extent_in(tensors, "talker.model.codec_embedding.weight"@, 0);
    &&& crate::weights::rows_error(tensors, "talker.model.text_embedding.weight"@) is None
    &&& matrix(
        tensors,
        "talker.text_projection.linear_fc1.weight"@,
        wide,
        extent_in(tensors, "talker.model.text_embedding.weight"@, 1),
    )
    &&& vector(tensors, "talker.text_projection.linear_fc1.bias"@, wide)
    &&& matrix(tensors, "talker.text_projection.linear_fc2.weight"@, hidden, wide)
    &&& vector(tensors, "talker.text_projection.linear_fc2.bias"@, hidden)
    &&& matrix(tensors, "talker.model.codec_embedding.weight"@, rows, hidden)
    &&& vector(tensors, "talker.model.norm.weight"@, hidden)
    &&& matrix(tensors, "talker.codec_head.weight"@, rows, hidden)
}

proof fn lemma_ends(tensors: Tensors, hidden: int)
    ensures
        first_error(tensors, text_steps(hidden) + codec_steps(hidden)) is None
            <==> has_ends(tensors, hidden),
{
    let s = text_steps(hidden) + codec_steps(hidden);
    crate::schema::passing_is_passing_each(tensors, s);
    assert(s.len() == 15);
    if first_error(tensors, s) is None {
        assert(crate::schema::step_error(tensors, s[0]) is None);
        assert(crate::schema::step_error(tensors, s[1]) is None);
        assert(crate::schema::step_error(tensors, s[2]) is None);
        assert(crate::schema::step_error(tensors, s[3]) is None);
        assert(crate::schema::step_error(tensors, s[4]) is None);
        assert(crate::schema::step_error(tensors, s[5]) is None);
        assert(crate::schema::step_error(tensors, s[6]) is None);
        assert(crate::schema::step_error(tensors, s[7]) is None);
        assert(crate::schema::step_error(tensors, s[8]) is None);
        assert(crate::schema::step_error(tensors, s[9]) is None);
        assert(crate::schema::step_error(tensors, s[10]) is None);
        assert(crate::schema::step_error(tensors, s[11]) is None);
        assert(crate::schema::step_error(tensors, s[12]) is None);
        assert(crate::schema::step_error(tensors, s[13]) is None);
        assert(crate::schema::step_error(tensors, s[14]) is None);
    }
    if has_ends(tensors, hidden) {
        assert forall|i: int| 0 <= i < s.len() implies crate::schema::step_error(
            tensors,
            #[trigger] s[i],
        ) is None by {
            assert(i == 0 || i == 1 || i == 2 || i == 3 || i == 4 || i == 5 || i == 6 || i == 7
                || i == 8 || i == 9 || i == 10 || i == 11 || i == 12 || i == 13 || i == 14);
        }
    }
}

/// A file serves as a talker exactly where the heads fit, it holds the layers
/// that are claimed, and it has every tensor with the shape that the sizes ask
/// for.
pub proof fn talkers_are_files_with_every_tensor(tensors: Tensors, cfg: TalkerConfig)
    ensures
        talker_error(tensors, cfg) is None <==> {
            &&& heads_fit(cfg.heads, cfg.kv_heads, cfg.head_dim)
            &&& layer_count_error(tensors, "talker.model.layers"@, cfg.layers as int) is None
            &&& forall|i: int|
                0 <= i < cfg.layers ==> has_layer(
                    tensors,
                    #[trigger] layer_name("talker.model.layers"@, i),
                    layer_size_of(cfg),
                )
            &&& has_ends(tensors, cfg.hidden as int)
        },
        ({
            let z = layer_size_of(cfg);
            (z.hidden, z.heads, z.kv_heads, z.head_dim) == (
                cfg.hidden,
                cfg.heads,
                cfg.kv_heads,
                cfg.head_dim,
            )
        }),
{
    let a = layers_steps(TALKER_LAYERS@, cfg.layers as nat, layer_size_of(cfg));
    let b = text_steps(cfg.hidden as int);
    let c = codec_steps(cfg.hidden as int);
    assert(a + b + c =~= a + (b + c));
    crate::schema::lists_pass_together(tensors, a, b + c);
    checked_layers_have_their_tensors(
        tensors,
        TALKER_LAYERS@,
        cfg.layers as nat,
        layer_size_of(cfg),
    );
    lemma_ends(tensors, cfg.hidden as int);
}

/// What is told of a file whose tensors are no talker's is the first fault in the
/// layers, then on the text side, then on the codec side.
pub proof fn talkers_are_checked_part_by_part(tensors: Tensors, cfg: TalkerConfig)
    ensures
        first_error(tensors, talker_steps(cfg)) == crate::schema::first_told(
            seq![
                first_error(tensors, layers_steps("talker.model.layers"@, cfg.layers as nat, layer_size_of(cfg))),
                first_error(tensors, text_steps(cfg.hidden as int)),
                first_error(tensors, codec_steps(cfg.hidden as int)),
            ],
        ),
{
    let a = layers_steps("talker.model.layers"@, cfg.layers as nat, layer_size_of(cfg));
    let b = text_steps(cfg.hidden as int);
    let c = codec_steps(cfg.hidden as int);
    crate::schema::lists_pass_together(tensors, a + b, c);
    crate::schema::lists_pass_together(tensors, a, b);
    reveal_with_fuel(crate::schema::first_told, 4);
}

} // verus!
