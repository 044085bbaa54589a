//! The code predictor: which weights it needs, and the passes that give a
//! frame's acoustic codes.

use crate::error::{ErrorView, TtsError};
use crate::ieee::Double;
use crate::schema::{
    check, first_error, linear_steps, no_steps, part, part_name, put_all, put_linear, put_vector,
    steps_of, vector_steps, Dim, DimView, Step, StepView, Tensors,
};
use crate::talker::{
    expect_layer_count, heads_consistent, heads_fit, layer_count_error, layers_schema,
    layers_steps, matrix, vector, visible, KvCache, LayerSize, DOUBLE_1E6, DOUBLE_1E_6,
};
use crate::text::{decimal, digits};
use crate::weights::WeightFile;
use vstd::prelude::*;

verus! {

/// The sizes of a code predictor.
#[derive(Clone, Copy, Debug)]
pub struct CodePredictorConfig {
    pub layers: usize,
    pub hidden: usize,
    pub heads: usize,
    pub kv_heads: usize,
    pub head_dim: usize,
    pub embed_dim: usize,
    pub vocab: usize,
    pub groups: usize,
    pub rope_theta: Double,
    pub rms_eps: Double,
}

/// The code predictor of the 1.7B model.
pub open spec fn code_pred_1_7b_cfg() -> CodePredictorConfig {
    CodePredictorConfig {
        layers: 5,
        hidden: 1024,
        heads: 16,
        kv_heads: 8,
        head_dim: 128,
        embed_dim: 2048,
        vocab: 2048,
        groups: 16,
        rope_theta: Double { bits: DOUBLE_1E6 },
        rms_eps: Double { bits: DOUBLE_1E_6 },
    }
}

/// The code predictor of the 1.7B model.
pub fn code_pred_1_7b() -> (r: CodePredictorConfig)
    ensures
        r == code_pred_1_7b_cfg(),
{
    CodePredictorConfig {
        layers: 5,
        hidden: 1024,
        heads: 16,
        kv_heads: 8,
        head_dim: 128,
        embed_dim: 2048,
        vocab: 2048,
        groups: 16,
        rope_theta: Double { bits: DOUBLE_1E6 },
        rms_eps: Double { bits: DOUBLE_1E_6 },
    }
}

/// Where the layers stand.
pub const PREDICTOR_LAYERS: &'static str = "talker.code_predictor.model.layers";

/// The embedding tables, one for each acoustic group.
pub const GROUP_EMBEDDING: &'static str = "talker.code_predictor.model.codec_embedding.";

/// The heads, one for each acoustic group.
pub const GROUP_HEAD: &'static str = "talker.code_predictor.lm_head.";

/// The projection from the talker's width.
pub const PROJECTION: &'static str = "talker.code_predictor.small_to_mtp_projection.weight";

/// The bias of that projection.
pub const PROJECTION_BIAS: &'static str = "talker.code_predictor.small_to_mtp_projection.bias";

/// The norm behind the last layer.
pub const PREDICTOR_NORM: &'static str = "talker.code_predictor.model.norm.weight";

/// Positions of the code predictor's cache.
pub const PREDICTOR_POSITIONS: usize = 17;

/// Positions of its rotary table.
pub const PREDICTOR_ROTARY: usize = 32;

/// The checks of `n` matrices of the same shape, one for each group.
pub open spec fn group_steps(prefix: Seq<char>, n: nat, rows: int, cols: int) -> Seq<StepView>
    decreases n,
{
    if n == 0 {
        Seq::empty()
    } else {
        group_steps(prefix, (n - 1) as nat, rows, cols) + linear_steps(
            part(prefix, n - 1, ".weight"@),
            DimView::Exactly(rows),
            DimView::Exactly(cols),
        )
    }
}

fn group_schema(prefix: &str, n: usize, rows: usize, cols: usize) -> (r: Vec<Step>)
    ensures
        steps_of(r@) == group_steps(prefix@, n as nat, rows as int, cols as int),
{
    let mut v: Vec<Step> = no_steps();
    let mut i: usize = 0;
    while i < n
        invariant
            i <= n,
            steps_of(v@) == group_steps(prefix@, i as nat, rows as int, cols as int),
        decreases n - i,
    {
        put_linear(
            &mut v,
            part_name(prefix, i, ".weight"),
            Dim::Exactly(rows),
            Dim::Exactly(cols),
        );
        i = i + 1;
    }
    v
}

/// The layer sizes of a code predictor.
pub open spec fn predictor_layer_size(cfg: CodePredictorConfig) -> LayerSize {
    LayerSize {
        hidden: cfg.hidden,
        heads: cfg.heads,
        kv_heads: cfg.kv_heads,
        head_dim: cfg.head_dim,
    }
}

/// All checks of a code predictor, in order.
pub open spec fn predictor_steps(cfg: CodePredictorConfig) -> Seq<StepView> {
    let hidden = DimView::Exactly(cfg.hidden as int);
    let acoustic = (cfg.groups - 1) as nat;
    group_steps(GROUP_EMBEDDING@, acoustic, cfg.vocab as int, cfg.embed_dim as int) + linear_steps(
        PROJECTION@,
        hidden,
        DimView::Exactly(cfg.embed_dim as int),
    ) + vector_steps(PROJECTION_BIAS@, hidden) + layers_steps(
        PREDICTOR_LAYERS@,
        cfg.layers as nat,
        predictor_layer_size(cfg),
    ) + vector_steps(PREDICTOR_NORM@, hidden) + group_steps(
        GROUP_HEAD@,
        acoustic,
        cfg.vocab as int,
        cfg.hidden as int,
    )
}

/// Whether the sizes of a code predictor make sense.
pub open spec fn predictor_fits(cfg: CodePredictorConfig) -> bool {
    cfg.groups >= 2 && heads_fit(cfg.heads, cfg.kv_heads, cfg.head_dim)
}

/// Why a file cannot serve as a code predictor, if it cannot.
pub open spec fn predictor_error(tensors: Tensors, cfg: CodePredictorConfig) -> Option<ErrorView> {
    if !predictor_fits(cfg) {
        Some(
            ErrorView::InvalidConfig(
                "code predictor groups "@ + digits(cfg.groups as nat) + " / heads "@ + digits(
                    cfg.heads as nat,
                ) + " / kv_heads "@ + digits(cfg.kv_heads as nat) + " / head_dim "@ + digits(
                    cfg.head_dim as nat,
                ) + " are inconsistent"@,
            ),
        )
    } else {
        match layer_count_error(tensors, PREDICTOR_LAYERS@, cfg.layers as int) {
            Some(e) => Some(e),
            None => first_error(tensors, predictor_steps(cfg)),
        }
    }
}

/// A code predictor whose weights were checked.
#[derive(Clone, Copy, Debug)]
pub struct CodePredictor {
    pub cfg: CodePredictorConfig,
}

/// One pass of the code predictor: it gives the code of `group`.
#[derive(Clone, Copy, PartialEq, Eq, Debug, Structural)]
pub struct CodePass {
    /// The acoustic group whose head is read.
    pub group: usize,
    /// The first position written.
    pub from: usize,
    /// The position behind the last one written.
    pub to: usize,
}

impl CodePass {
    /// The pass that gives the code of a group: the first one takes the
    /// talker's hidden state and the semantic embedding, each further one the
    /// embedding of the code before it.
    pub open spec fn of(group: int) -> CodePass {
        CodePass {
            group: group as usize,
            from: if group == 0 {
                0
            } else {
                (group + 1) as usize
            },
            to: (group + 2) as usize,
        }
    }
}

impl CodePredictor {
    /// Checks that a file holds a code predictor of these sizes.
    pub fn load(wf: &WeightFile<'_>, cfg: CodePredictorConfig) -> (r: Result<Self, TtsError>)
        requires
            cfg.layers < usize::MAX,
            cfg.heads * cfg.head_dim <= usize::MAX,
            cfg.kv_heads * cfg.head_dim <= usize::MAX,
        ensures
            match r {
                Ok(p) => predictor_error(wf@, cfg) is None && p.cfg == cfg,
                Err(e) => predictor_error(wf@, cfg) == Some(e@),
            },
    {
        if cfg.groups < 2 || !heads_consistent(cfg.heads, cfg.kv_heads, cfg.head_dim) {
            return Err(
                TtsError::InvalidConfig(
                    "code predictor groups ".to_string().concat(
                        decimal(cfg.groups as u64).as_str(),
                    ).concat(" / heads ").concat(decimal(cfg.heads as u64).as_str()).concat(
                        " / kv_heads ",
                    ).concat(decimal(cfg.kv_heads as u64).as_str()).concat(" / head_dim ").concat(
                        decimal(cfg.head_dim as u64).as_str(),
                    ).concat(" are inconsistent"),
                ),
            );
        }
        expect_layer_count(wf, PREDICTOR_LAYERS, cfg.layers)?;
        let size: LayerSize = LayerSize {
            hidden: cfg.hidden,
            heads: cfg.heads,
            kv_heads: cfg.kv_heads,
            head_dim: cfg.head_dim,
        };
        let acoustic: usize = cfg.groups - 1;
        let mut steps: Vec<Step> = group_schema(
            GROUP_EMBEDDING,
            acoustic,
            cfg.vocab,
            cfg.embed_dim,
        );
        put_linear(
            &mut steps,
            PROJECTION.to_string(),
            Dim::Exactly(cfg.hidden),
            Dim::Exactly(cfg.embed_dim),
        );
        put_vector(&mut steps, PROJECTION_BIAS.to_string(), Dim::Exactly(cfg.hidden));
        put_all(&mut steps, layers_schema(PREDICTOR_LAYERS, cfg.layers, &size));
        put_vector(&mut steps, PREDICTOR_NORM.to_string(), Dim::Exactly(cfg.hidden));
        put_all(&mut steps, group_schema(GROUP_HEAD, acoustic, cfg.vocab, cfg.hidden));
        check(wf, &steps)?;
        Ok(CodePredictor { cfg })
    }

    /// A cache for the passes of a frame. It is used again for every frame.
    pub fn new_cache(&self) -> (r: KvCache)
        ensures
            r == (KvCache {
                layers: self.cfg.layers,
                kv_heads: self.cfg.kv_heads,
                max: PREDICTOR_POSITIONS,
                head_dim: self.cfg.head_dim,
            }),
    {
        KvCache::new(self.cfg.layers, self.cfg.kv_heads, PREDICTOR_POSITIONS, self.cfg.head_dim)
    }

    /// The passes that give a frame's acoustic codes, one for each group in
    /// order.
    pub fn generate_codes(&self) -> (r: Vec<CodePass>)
        requires
            self.cfg.groups >= 2,
            self.cfg.groups < usize::MAX,
        ensures
            r@ == Seq::new((self.cfg.groups - 1) as nat, |g: int| CodePass::of(g)),
    {
        let acoustic: usize = self.cfg.groups - 1;
        let mut out: Vec<CodePass> = Vec::new();
        let mut g: usize = 0;
        while g < acoustic
            invariant
                acoustic == self.cfg.groups - 1,
                self.cfg.groups < usize::MAX,
                g <= acoustic,
                out@ =~= Seq::new(g as nat, |g: int| CodePass::of(g)),
            decreases acoustic - g,
        {
            out.push(
                CodePass {
                    group: g,
                    from: if g == 0 {
                        0
                    } else {
                        g + 1
                    },
                    to: g + 2,
                },
            );
            g = g + 1;
        }
        out
    }
}

/// A cache that is used again needs no reset: whatever a pass can see was
/// written by it or by an earlier pass of the same frame, each pass starts
/// where the one before it ended, and the cache and the rotary table have room
/// for all of them.
pub proof fn reused_cache_shows_only_this_frame(group: int, p: int, j: int)
    requires
        0 <= group < 15,
        CodePass::of(group).from <= p < CodePass::of(group).to,
        0 <= j,
        visible(p, j),
    ensures
        exists|g: int|
            0 <= g <= group && #[trigger] CodePass::of(g).from <= j < CodePass::of(g).to,
        group > 0 ==> CodePass::of(group).from == CodePass::of(group - 1).to,
        CodePass::of(group).to <= PREDICTOR_POSITIONS <= PREDICTOR_ROTARY,
{
    let g = if j < 2 {
        0
    } else {
        j - 1
    };
    assert(CodePass::of(g).from <= j < CodePass::of(g).to);
}

/// The code predictor of the 1.7B model: five layers of 1024 behind embeddings
/// of 2048, and a head of 2048 codes for each of the groups but the first of
/// sixteen.
pub proof fn the_predictor_is_as_published()
    ensures
        ({
            let c = code_pred_1_7b_cfg();
            &&& c.layers == 5
            &&& c.hidden == 1024
            &&& c.heads == 16
            &&& c.kv_heads == 8
            &&& c.head_dim == 128
            &&& c.embed_dim == 2048
            &&& c.vocab == 2048
            &&& c.groups == 16
            &&& c.rope_theta.bits == 0x412e_8480_0000_0000
            &&& c.rms_eps.bits == 0x3eb0_c6f7_a0b5_ed8d
        }),
        predictor_fits(code_pred_1_7b_cfg()),
        PREDICTOR_POSITIONS == 17,
        PREDICTOR_ROTARY == 32,
{
}

/// The pass of a group reads the head of that group. The first writes the two
/// positions of the talker's state and the semantic code, each further one the
/// position behind, so that group `g` ends at position `g + 2`.
pub proof fn passes_write_one_position_each(group: int)
    requires
        0 <= group < 15,
    ensures
        CodePass::of(group).group == group,
        CodePass::of(group).to == group + 2,
        group == 0 ==> CodePass::of(group).to - CodePass::of(group).from == 2,
        group > 0 ==> CodePass::of(group).to - CodePass::of(group).from == 1,
{
}

/// A code predictor is refused for its sizes before its layers are counted, and
/// for their number before its tensors are looked at.
pub proof fn predictors_are_checked_in_order(tensors: Tensors, cfg: CodePredictorConfig)
    ensures
        ({
            let fits = cfg.groups > 1 && heads_fit(cfg.heads, cfg.kv_heads, cfg.head_dim);
            let count = layer_count_error(
                tensors,
                "talker.code_predictor.model.layers"@,
                cfg.layers as int,
            );
            &&& !fits ==> predictor_error(tensors, cfg) == Some(
                ErrorView::InvalidConfig(
                    "code predictor groups "@ + digits(cfg.groups as nat) + " / heads "@ + digits(
                        cfg.heads as nat,
                    ) + " / kv_heads "@ + digits(cfg.kv_heads as nat) + " / head_dim "@ + digits(
                        cfg.head_dim as nat,
                    ) + " are inconsistent"@,
                ),
            )
            &&& fits && count is Some ==> predictor_error(tensors, cfg) == count
            &&& fits && count is None ==> predictor_error(tensors, cfg) == first_error(
                tensors,
                predictor_steps(cfg),
            )
        }),
{
}

/// The name of the `i`-th of some tables.
pub open spec fn table_name(prefix: Seq<char>, i: int) -> Seq<char> {
    prefix + digits(i as nat) + ".weight"@
}

/// A file serves as a code predictor exactly where the sizes make sense, it holds
/// the layers that are claimed, and it has every tensor: an embedding table and
/// a head for each acoustic group, a projection from the talker's width, and
/// layers of its own sizes.
pub proof fn predictors_are_files_with_every_tensor(tensors: Tensors, cfg: CodePredictorConfig)
    ensures
        predictor_error(tensors, cfg) is None <==> {
            let (hidden, wide, codes) = (
                cfg.hidden as int,
                cfg.embed_dim as int,
                cfg.vocab as int,
            );
            &&& cfg.groups >= 2
            &&& heads_fit(cfg.heads, cfg.kv_heads, cfg.head_dim)
            &&& layer_count_error(
                tensors,
                "talker.code_predictor.model.layers"@,
                cfg.layers as int,
            ) is None
            &&& forall|g: int|
                0 <= g < cfg.groups - 1 ==> matrix(
                    tensors,
                    #[trigger] table_name("talker.code_predictor.model.codec_embedding."@, g),
                    codes,
                    wide,
                )
            &&& matrix(
                tensors,
                "talker.code_predictor.small_to_mtp_projection.weight"@,
                hidden,
                wide,
            )
            &&& vector(tensors, "talker.code_predictor.small_to_mtp_projection.bias"@, hidden)
            &&& forall|i: int|
                0 <= i < cfg.layers ==> crate::talker::has_layer(
                    tensors,
                    #[trigger] crate::talker::layer_name(
                        "talker.code_predictor.model.layers"@,
                        i,
                    ),
                    predictor_layer_size(cfg),
                )
            &&& vector(tensors, "talker.code_predictor.model.norm.weight"@, hidden)
            &&& forall|g: int|
                0 <= g < cfg.groups - 1 ==> matrix(
                    tensors,
                    #[trigger] table_name("talker.code_predictor.lm_head."@, g),
                    codes,
                    hidden,
                )
        },
        ({
            let z = predictor_layer_size(cfg);
            (z.hidden, z.heads, z.kv_heads, z.head_dim) == (
                cfg.hidden,
                cfg.heads,
                cfg.kv_heads,
                cfg.head_dim,
            )
        }),
{
    if cfg.groups >= 2 {
        let hidden = DimView::Exactly(cfg.hidden as int);
        let n = (cfg.groups - 1) as nat;
        let a = group_steps(GROUP_EMBEDDING@, n, cfg.vocab as int, cfg.embed_dim as int);
        let b = linear_steps(PROJECTION@, hidden, DimView::Exactly(cfg.embed_dim as int));
        let c = vector_steps(PROJECTION_BIAS@, hidden);
        let d = layers_steps(PREDICTOR_LAYERS@, cfg.layers as nat, predictor_layer_size(cfg));
        let e = vector_steps(PREDICTOR_NORM@, hidden);
        let f = group_steps(GROUP_HEAD@, n, cfg.vocab as int, cfg.hidden as int);
        crate::schema::lists_pass_together(tensors, a + b + c + d + e, f);
        crate::schema::lists_pass_together(tensors, a + b + c + d, e);
        crate::schema::lists_pass_together(tensors, a + b + c, d);
        crate::schema::lists_pass_together(tensors, a + b, c);
        crate::schema::lists_pass_together(tensors, a, b);
        lemma_groups(tensors, GROUP_EMBEDDING@, n, cfg.vocab as int, cfg.embed_dim as int);
        lemma_groups(tensors, GROUP_HEAD@, n, cfg.vocab as int, cfg.hidden as int);
        lemma_linear(tensors, PROJECTION@, cfg.hidden as int, cfg.embed_dim as int);
        lemma_vector(tensors, PROJECTION_BIAS@, cfg.hidden as int);
        lemma_vector(tensors, PREDICTOR_NORM@, cfg.hidden as int);
        crate::talker::checked_layers_have_their_tensors(
            tensors,
            PREDICTOR_LAYERS@,
            cfg.layers as nat,
            predictor_layer_size(cfg),
        );
    }
}

proof fn lemma_linear(tensors: Tensors, name: Seq<char>, rows: int, cols: int)
    ensures
        first_error(tensors, linear_steps(name, DimView::Exactly(rows), DimView::Exactly(cols))) is None
            <==> matrix(tensors, name, rows, cols),
{
    let s = linear_steps(name, DimView::Exactly(rows), DimView::Exactly(cols));
    crate::schema::passing_is_passing_each(tensors, s);
    assert(s.len() == 2);
    if first_error(tensors, s) is None {
        assert(crate::schema::step_error(tensors, s[0]) is None);
        assert(crate::schema::step_error(tensors, s[1]) is None);
    }
    if matrix(tensors, name, rows, cols) {
        assert forall|i: int| 0 <= i < s.len() implies crate::schema::step_error(
            tensors,
            #[trigger] s[i],
        ) is None by {
            assert(i == 0 || i == 1);
        }
    }
}

proof fn lemma_vector(tensors: Tensors, name: Seq<char>, len: int)
    ensures
        first_error(tensors, vector_steps(name, DimView::Exactly(len))) is None
            <==> vector(tensors, name, len),
{
    let s = vector_steps(name, DimView::Exactly(len));
    crate::schema::passing_is_passing_each(tensors, s);
    assert(s.len() == 2);
    if first_error(tensors, s) is None {
        assert(crate::schema::step_error(tensors, s[0]) is None);
        assert(crate::schema::step_error(tensors, s[1]) is None);
    }
    if vector(tensors, name, len) {
        assert forall|i: int| 0 <= i < s.len() implies crate::schema::step_error(
            tensors,
            #[trigger] s[i],
        ) is None by {
            assert(i == 0 || i == 1);
        }
    }
}

proof fn lemma_groups(tensors: Tensors, prefix: Seq<char>, n: nat, rows: int, cols: int)
    ensures
        first_error(tensors, group_steps(prefix, n, rows, cols)) is None <==> forall|g: int|
            0 <= g < n ==> matrix(tensors, #[trigger] table_name(prefix, g), rows, cols),
    decreases n,
{
    if n > 0 {
        let m = (n - 1) as nat;
        let name = part(prefix, n - 1, ".weight"@);
        crate::schema::lists_pass_together(
            tensors,
            group_steps(prefix, m, rows, cols),
            linear_steps(name, DimView::Exactly(rows), DimView::Exactly(cols)),
        );
        lemma_groups(tensors, prefix, m, rows, cols);
        assert(name == table_name(prefix, n - 1));
        lemma_linear(tensors, name, rows, cols);
    }
}

/// What is told of a file whose tensors are no code predictor's is the first
/// fault in the embedding tables, then in the projection, in the layers, in the
/// norm behind them, and in the heads.
pub proof fn predictors_are_checked_part_by_part(tensors: Tensors, cfg: CodePredictorConfig)
    ensures
        first_error(tensors, predictor_steps(cfg)) == crate::schema::first_told(
            seq![
                first_error(tensors, group_steps(
                    "talker.code_predictor.model.codec_embedding."@,
                    (cfg.groups - 1) as nat,
                    cfg.vocab as int,
                    cfg.embed_dim as int,
                )),
                first_error(tensors, linear_steps(
                    "talker.code_predictor.small_to_mtp_projection.weight"@,
                    DimView::Exactly(cfg.hidden as int),
                    DimView::Exactly(cfg.embed_dim as int),
                )),
                first_error(tensors, vector_steps(
                    "talker.code_predictor.small_to_mtp_projection.bias"@,
                    DimView::Exactly(cfg.hidden as int),
                )),
                first_error(tensors, layers_steps(
                    "talker.code_predictor.model.layers"@,
                    cfg.layers as nat,
                    predictor_layer_size(cfg),
                )),
                first_error(tensors, vector_steps(
                    "talker.code_predictor.model.norm.weight"@,
                    DimView::Exactly(cfg.hidden as int),
                )),
                first_error(tensors, group_steps(
                    "talker.code_predictor.lm_head."@,
                    (cfg.groups - 1) as nat,
                    cfg.vocab as int,
                    cfg.hidden as int,
                )),
            ],
        ),
{
    let a = group_steps(
        "talker.code_predictor.model.codec_embedding."@,
        (cfg.groups - 1) as nat,
        cfg.vocab as int,
        cfg.embed_dim as int,
    );
    let b = linear_steps(
        "talker.code_predictor.small_to_mtp_projection.weight"@,
        DimView::Exactly(cfg.hidden as int),
        DimView::Exactly(cfg.embed_dim as int),
    );
    let c = vector_steps(
        "talker.code_predictor.small_to_mtp_projection.bias"@,
        DimView::Exactly(cfg.hidden as int),
    );
    let d = layers_steps(
        "talker.code_predictor.model.layers"@,
        cfg.layers as nat,
        predictor_layer_size(cfg),
    );
    let e = vector_steps(
        "talker.code_predictor.model.norm.weight"@,
        DimView::Exactly(cfg.hidden as int),
    );
    let f = group_steps(
        "talker.code_predictor.lm_head."@,
        (cfg.groups - 1) as nat,
        cfg.vocab as int,
        cfg.hidden as int,
    );
    crate::schema::lists_pass_together(tensors, a + b + c + d + e, f);
    crate::schema::lists_pass_together(tensors, a + b + c + d, e);
    crate::schema::lists_pass_together(tensors, a + b + c, d);
    crate::schema::lists_pass_together(tensors, a + b, c);
    crate::schema::lists_pass_together(tensors, a, b);
    reveal_with_fuel(crate::schema::first_told, 7);
}

} // verus!
